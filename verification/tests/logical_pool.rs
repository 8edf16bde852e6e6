use std::collections::{BTreeMap, BTreeSet};

use lightning_core::logical_pool::{IpAddress, LastDial, LogicalPool, NodeInfo, SocketAddress};

fn node(index: u32) -> NodeInfo {
    NodeInfo {
        index,
        pk: [index as u8; 32],
        socket_address: SocketAddress { ip: IpAddress::V4([127, 0, 0, 1]), port: 8000 + index as u16 },
    }
}

/// What the application state knows: nodes `0..n`.
fn state(n: u32) -> BTreeMap<u32, NodeInfo> {
    (0..n).map(|i| (i, node(i))).collect()
}

fn set(indices: &[u32]) -> BTreeSet<u32> {
    indices.iter().copied().collect()
}

fn keys(pool: &LogicalPool) -> BTreeSet<u32> {
    pool.connections().keys().copied().collect()
}

#[test]
fn test_log_pool_update_connections() {
    // A network of four nodes; we are node 0.
    let infos = state(4);
    let mut pool = LogicalPool::new();

    pool._update_connections(&set(&[1, 2, 3]), &infos, 0);
    assert_eq!(keys(&pool), set(&[1, 2, 3]));

    // Peers the state does not know are left out.
    pool._update_connections(&set(&[1, 2, 3, 6969, 9696]), &infos, 0);
    assert_eq!(keys(&pool), set(&[1, 2, 3]));

    // Shrinking the cluster to one peer drops the other two.
    let task = pool._update_connections(&set(&[1]), &infos, 0);
    assert!(task.keep.contains_key(&1));
    assert_eq!(task.keep.len(), 1);
    assert!(task.drop.contains(&2));
    assert!(task.drop.contains(&3));
    assert_eq!(task.drop.len(), 2);
    assert_eq!(keys(&pool), set(&[1]));

    pool._update_connections(&BTreeSet::new(), &infos, 0);
    assert!(keys(&pool).is_empty());
}

#[test]
fn test_log_pool_pinning_peers_from_topology() {
    let infos = state(4);
    let mut pool = LogicalPool::new();
    pool._update_connections(&set(&[1, 2, 3]), &infos, 0);

    // A request to peer 1 pins it.
    assert_eq!(pool.process_outgoing_request(1, Some(node(1)), 0).map(|n| n.index), Some(1));

    // A pinned peer survives the cluster emptying.
    let task = pool._update_connections(&BTreeSet::new(), &infos, 0);
    assert_eq!(keys(&pool), set(&[1]));
    assert_eq!(task.drop.len(), 2);
    assert!(!task.drop.contains(&1));

    // Once unpinned, the next update drops it.
    pool.clean(1);
    pool._update_connections(&BTreeSet::new(), &infos, 0);
    assert!(keys(&pool).is_empty());
}

#[test]
fn test_log_pool_pinning_peers_outside_topology_cluster() {
    let mut pool = LogicalPool::new();
    assert!(keys(&pool).is_empty());

    assert_eq!(pool.process_outgoing_request(1, Some(node(1)), 0).map(|n| n.index), Some(1));
    assert_eq!(keys(&pool), set(&[1]));

    // The peer was not in our cluster: cleaning removes it at once.
    pool.clean(1);
    assert!(keys(&pool).is_empty());
}

#[test]
fn test_log_pool_only_broadcast_to_peers_in_topology_cluster() {
    let infos = state(4);
    let mut pool = LogicalPool::new();
    pool._update_connections(&set(&[1, 2]), &infos, 0);
    assert_eq!(pool.connections().len(), 2);

    // A request pins peer 3, which is not in the cluster.
    assert_eq!(pool.process_outgoing_request(3, Some(node(3)), 0).map(|n| n.index), Some(3));
    assert_eq!(pool.connections().len(), 3);

    let peers = pool.process_outgoing_broadcast_filtered(|_| true).unwrap();
    let indices: BTreeSet<u32> = peers.iter().map(|c| c.node_info.index).collect();
    assert_eq!(indices, set(&[1, 2]));
    assert!(!indices.contains(&3));
}

#[test]
fn test_log_pool_only_broadcast_to_one_peer() {
    let infos = state(4);
    let mut pool = LogicalPool::new();
    pool._update_connections(&set(&[1, 2, 3]), &infos, 0);
    assert_eq!(pool.connections().len(), 3);

    let peers = pool.process_outgoing_broadcast_to(1).unwrap();
    assert_eq!(peers.len(), 1);
    assert_eq!(peers[0].node_info.index, 1);

    // A peer that is not in the pool gets nothing.
    assert!(pool.process_outgoing_broadcast_to(6969).is_none());
}

#[test]
fn broadcast_filter_selects_peers() {
    let infos = state(5);
    let mut pool = LogicalPool::new();
    pool._update_connections(&set(&[1, 2, 3, 4]), &infos, 0);
    let peers = pool.process_outgoing_broadcast_filtered(|i| i % 2 == 0).unwrap();
    let indices: BTreeSet<u32> = peers.iter().map(|c| c.node_info.index).collect();
    assert_eq!(indices, set(&[2, 4]));
    assert!(pool.process_outgoing_broadcast_filtered(|_| false).is_none());
}

#[test]
fn lower_index_dials() {
    let infos = state(5);
    let mut pool = LogicalPool::new();
    pool._update_connections(&set(&[1, 3, 4]), &infos, 2);
    assert!(pool.get_connection_info(1).unwrap().connect);
    assert!(!pool.get_connection_info(3).unwrap().connect);
    assert!(!pool.get_connection_info(4).unwrap().connect);
    assert!(pool.get_connection_info(1).unwrap().from_topology);
    assert!(!pool.get_connection_info(1).unwrap().pinned);
}

#[test]
fn update_connections_resolves_keys_and_skips_ourselves() {
    let infos = state(4);
    let mut pool = LogicalPool::new();
    // Keys the state resolves to 0 (ourselves), 2 and 3; one it does not know.
    let task = pool.update_connections(&vec![Some(0), Some(2), None, Some(3), Some(2)], &infos, 0);
    assert_eq!(keys(&pool), set(&[2, 3]));
    assert_eq!(task.keep.len(), 2);
    assert!(task.drop.is_empty());
}

#[test]
fn pin_marks_existing_connection() {
    let infos = state(3);
    let mut pool = LogicalPool::new();
    pool._update_connections(&set(&[1]), &infos, 0);
    pool.pin_connection(1, node(1), 0);
    let c = pool.get_connection_info(1).unwrap();
    assert!(c.pinned && c.from_topology);

    // Cleaning a topology connection only unpins it.
    pool.clean(1);
    let c = pool.get_connection_info(1).unwrap();
    assert!(!c.pinned && c.from_topology);

    // A topology change marks a pinned outside peer as from the topology once
    // it joins the cluster.
    pool.pin_connection(2, node(2), 0);
    assert!(!pool.get_connection_info(2).unwrap().from_topology);
    pool._update_connections(&set(&[1, 2]), &infos, 0);
    let c = pool.get_connection_info(2).unwrap();
    assert!(c.pinned && c.from_topology);
}

#[test]
fn received_messages_and_requests() {
    let mut pool = LogicalPool::new();
    assert!(!pool.process_received_message(1));
    assert!(!pool.process_received_request(1, None, 0));
    assert!(!pool.contains(1));
    assert!(pool.process_received_request(1, Some(node(1)), 0));
    assert!(pool.process_received_message(1));
    assert!(pool.get_connection_info(1).unwrap().pinned);

    // A new transport connection pins a peer the state knows.
    pool.handle_new_connection(2, Some(node(2)), 0);
    assert!(pool.get_connection_info(2).unwrap().pinned);
    pool.handle_new_connection(3, None, 0);
    assert!(!pool.contains(3));

    pool.clear_state();
    assert!(pool.connections().is_empty());
}

#[test]
fn request_stats_count_cluster_hits() {
    let infos = state(4);
    let mut pool = LogicalPool::new();
    pool._update_connections(&set(&[1, 2]), &infos, 0);
    pool.record_req_res_request(1);
    assert_eq!(pool.stats.total_req_res_requests, 1);
    assert_eq!(pool.stats.cluster_hit_count, 1);

    // A request through the pool counts, then pins; a pinned peer is no new hit.
    pool.process_outgoing_request(2, Some(node(2)), 0);
    pool.process_outgoing_request(2, Some(node(2)), 0);
    pool.process_outgoing_request(3, Some(node(3)), 0);
    assert_eq!(pool.stats.total_req_res_requests, 4);
    assert_eq!(pool.stats.cluster_hit_count, 2);

    // An unknown peer is not counted.
    assert!(pool.process_outgoing_request(9, None, 0).is_none());
    assert_eq!(pool.stats.total_req_res_requests, 4);

    // A topology change starts the counters over.
    pool._update_connections(&set(&[1]), &infos, 0);
    assert_eq!(pool.stats.total_req_res_requests, 0);
    assert_eq!(pool.stats.cluster_hit_count, 0);
}

#[test]
fn pin_then_clean_restores_the_pool() {
    let infos = state(4);
    let mut pool = LogicalPool::new();
    pool._update_connections(&set(&[1, 2]), &infos, 0);
    let before = pool.connections();
    pool.pin_connection(3, node(3), 0);
    pool.clean(3);
    assert_eq!(keys(&pool), before.keys().copied().collect());
    pool.pin_connection(1, node(1), 0);
    pool.clean(1);
    let c = pool.get_connection_info(1).unwrap();
    assert!(!c.pinned && c.from_topology);
}

#[test]
fn closed_connections_of_the_cluster_are_redialed() {
    let infos = state(4);
    let mut pool = LogicalPool::new();
    pool._update_connections(&set(&[1, 2]), &infos, 0);

    // A healthy connection: redial after ten seconds and reset the dial count.
    let t = pool.handle_closed_connection(1, Some(LastDial { closed_soon: false, num_tries: 4 })).unwrap();
    assert_eq!(t.info.node_info.index, 1);
    assert_eq!(t.delay.as_nanos(), 10 * 1_000_000_000);
    assert!(t.reset_dial_info);
    assert!(pool.contains(1));

    // One that closed soon after being dialed backs off.
    let t = pool.handle_closed_connection(2, Some(LastDial { closed_soon: true, num_tries: 1 })).unwrap();
    assert_eq!(t.delay.as_nanos(), 20 * 1_000_000_000);
    assert!(!t.reset_dial_info);

    // A pinned peer outside the cluster is not redialed, and is cleaned up.
    pool.pin_connection(3, node(3), 0);
    assert!(pool.handle_closed_connection(3, None).is_none());
    assert!(!pool.contains(3));

    // Nor is a peer not in the pool.
    assert!(pool.handle_closed_connection(7, None).is_none());
}
