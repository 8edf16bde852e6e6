use lightning_core::endpoint::{Admission, ConnectionTable, Dialer, EndpointState, Route, ServiceRequest};

#[test]
fn one_primary_and_one_redundant_connection() {
    let mut t = ConnectionTable::new();
    assert_eq!(t.accept(1, 10), Admission::Primary);
    assert_eq!(t.accept(1, 11), Admission::Redundant);
    assert_eq!(t.accept(1, 12), Admission::Rejected);
    assert!(t.is_connected(1));
    assert_eq!(t.pool[&1], 10);
    assert_eq!(t.redundant[&1], 11);
}

#[test]
fn closing_the_primary_promotes_the_redundant() {
    let mut t = ConnectionTable::new();
    t.accept(1, 10);
    t.accept(1, 11);
    assert!(!t.close(1, 10));
    assert_eq!(t.pool[&1], 11);
    assert!(t.redundant.is_empty());
    assert!(t.close(1, 11));
    assert!(!t.is_connected(1));
}

#[test]
fn a_superseded_connection_closes_quietly() {
    let mut t = ConnectionTable::new();
    t.accept(1, 10);
    t.accept(1, 11);
    // The redundant connection closes first.
    assert!(!t.close(1, 11));
    assert_eq!(t.pool[&1], 10);
    // A close of an id no longer on record changes nothing.
    assert!(!t.close(1, 99));
    assert_eq!(t.pool[&1], 10);
    // A peer without connections: it has ended.
    assert!(t.close(2, 5));
}

#[test]
fn dropping_a_peer_hands_back_its_connections() {
    let mut t = ConnectionTable::new();
    t.accept(1, 10);
    t.accept(1, 11);
    t.accept(2, 20);
    assert_eq!(t.drop_peer(1), (Some(10), Some(11)));
    assert_eq!(t.drop_peer(3), (None, None));
    assert!(!t.is_connected(1));
    assert!(t.is_connected(2));
}

#[test]
fn dials_are_not_repeated_while_under_way() {
    let mut d = Dialer::new();
    assert!(d.enqueue_dial(4));
    assert!(!d.enqueue_dial(4));
    assert_eq!(d.num_tries[&4], 1);
    d.remove_pending_dial(4);
    assert!(d.enqueue_dial(4));
    assert_eq!(d.num_tries[&4], 2);
    d.reset(4);
    assert_eq!(d.num_tries[&4], 0);
    assert!(d.forget(4));
    assert!(!d.forget(4));
    assert!(d.num_tries.is_empty());
}

type State = EndpointState<&'static str, u32>;

#[test]
fn requests_wait_for_the_connection_and_dial_once() {
    let mut e: State = EndpointState::new();
    match e.route(7, ServiceRequest::SendMessage("hello")) {
        Route::Queued(started) => assert!(started),
        Route::Send(..) => panic!("no connection yet"),
    }
    match e.route(7, ServiceRequest::SendRequest(42)) {
        // A dial is already under way.
        Route::Queued(started) => assert!(!started),
        Route::Send(..) => panic!("no connection yet"),
    }
    assert_eq!(e.dialer.num_tries[&7], 1);
    assert_eq!(e.pending[&7].len(), 2);

    let est = e.establish(7, 100);
    assert!(est.dial_cancelled);
    assert_eq!(est.admission, Admission::Primary);
    assert!(est.service_request_sent);
    assert_eq!(est.requests.len(), 2);
    assert!(matches!(est.requests[0], ServiceRequest::SendMessage("hello")));
    assert!(matches!(est.requests[1], ServiceRequest::SendRequest(42)));
    assert!(e.pending.is_empty());
    assert!(e.dialer.pending.is_empty());

    // Now the request goes through the connection.
    match e.route(7, ServiceRequest::SendMessage("again")) {
        Route::Send(id, ServiceRequest::SendMessage(m)) => {
            assert_eq!(id, 100);
            assert_eq!(m, "again");
        },
        _ => panic!("the peer is connected"),
    }
}

#[test]
fn messages_alone_do_not_pin_the_connection() {
    let mut e: State = EndpointState::new();
    e.route(3, ServiceRequest::SendMessage("a"));
    let est = e.establish(3, 1);
    assert_eq!(est.admission, Admission::Primary);
    assert!(!est.service_request_sent);
    assert_eq!(est.requests.len(), 1);
}

#[test]
fn a_third_connection_is_rejected_and_requests_keep_waiting() {
    let mut e: State = EndpointState::new();
    assert_eq!(e.establish(5, 1).admission, Admission::Primary);
    assert_eq!(e.establish(5, 2).admission, Admission::Redundant);
    // The pool has a connection: nothing queues.
    assert!(matches!(e.route(5, ServiceRequest::SendRequest(9)), Route::Send(1, _)));
    let third = e.establish(5, 3);
    assert_eq!(third.admission, Admission::Rejected);
    assert!(third.requests.is_empty());
    assert!(!third.dial_cancelled);
    assert_eq!(e.table.pool[&5], 1);
    assert_eq!(e.table.redundant[&5], 2);
}

#[test]
fn a_failed_dial_hands_back_the_waiting_requests() {
    let mut e: State = EndpointState::new();
    e.route(4, ServiceRequest::SendRequest(1));
    e.route(4, ServiceRequest::SendMessage("m"));
    let reqs = e.dial_failed(4);
    assert_eq!(reqs.len(), 2);
    assert!(e.pending.is_empty());
    assert!(e.dialer.pending.is_empty());
    // The dial count stays.
    assert_eq!(e.dialer.num_tries[&4], 1);
    // Another request dials again.
    assert!(matches!(e.route(4, ServiceRequest::SendRequest(2)), Route::Queued(true)));
    assert_eq!(e.dialer.num_tries[&4], 2);
}

#[test]
fn broadcast_targets_split_by_connection() {
    let mut e: State = EndpointState::new();
    e.establish(2, 20);
    e.establish(5, 50);
    let (connected, not_connected) = e.split_targets(&vec![1, 2, 3, 5, 2]);
    assert_eq!(connected, vec![2, 5, 2]);
    assert_eq!(not_connected, vec![1, 3]);
    let mut all = e.table.connected_peers();
    all.sort();
    assert_eq!(all, vec![2, 5]);
}

#[test]
fn add_dials_only_where_this_side_connects() {
    let mut e: State = EndpointState::new();
    assert!(e.add(1, true));
    assert!(!e.add(1, true));
    assert!(!e.add(2, false));
    e.establish(3, 30);
    assert!(!e.add(3, true));
    assert_eq!(e.dialer.pending.len(), 1);
}

#[test]
fn update_drops_old_peers_and_dials_new_ones() {
    let mut e: State = EndpointState::new();
    e.establish(1, 10);
    e.establish(1, 11);
    e.establish(2, 20);
    e.add(3, true);
    e.add(4, true);
    let plan = e.update(&vec![(2, true), (4, true), (5, true), (6, false), (7, true)], &vec![1, 3, 1]);
    assert_eq!(plan.closing, vec![10, 11]);
    assert_eq!(plan.cancelled, vec![3]);
    // 2 is connected, 4 is being dialed, 6 dials us.
    assert_eq!(plan.dial, vec![5, 7]);
    assert!(plan.schedule_timeout);
    assert!(!e.table.is_connected(1));
    assert!(e.table.is_connected(2));
    assert!(!e.dialer.num_tries.contains_key(&3));
    assert!(e.dialer.pending.contains(&5) && e.dialer.pending.contains(&7) && e.dialer.pending.contains(&4));
    assert_eq!(e.dialer.num_tries[&5], 1);
    let calm = e.update(&vec![], &vec![]);
    assert!(!calm.schedule_timeout);
    assert!(calm.closing.is_empty() && calm.dial.is_empty() && calm.cancelled.is_empty());
}

#[test]
fn clearing_the_dialer_cancels_every_dial() {
    let mut d = Dialer::new();
    assert!(d.enqueue_dial(1));
    assert!(d.enqueue_dial(2));
    d.clear();
    assert!(d.pending.is_empty());
    assert_eq!(d.num_tries[&1], 1);
    assert!(d.enqueue_dial(1));
}

fn conn(lost: u64) -> lightning_core::state::TransportConnectionInfo {
    lightning_core::state::TransportConnectionInfo {
        redundant: false,
        request_queue_cap: 10,
        request_queue_max_cap: 1024,
        stats: lightning_core::state::Stats {
            rtt: lightning_core::measurements::Duration::from_millis(5),
            lost_packets: lost,
            sent_packets: 100,
            congestion_events: 0,
            cwnd: 1,
            black_holes_detected: 0,
        },
    }
}

#[test]
fn stats_reply_lists_primary_then_redundant_connections() {
    let primary = vec![(1, conn(1)), (2, conn(2))];
    let redundant = vec![(1, conn(3)), (3, conn(4)), (1, conn(5))];
    let r = lightning_core::endpoint::collect_endpoint_info(&primary, &redundant);
    let keys: Vec<u32> = r.keys().copied().collect();
    assert_eq!(keys, vec![1, 2, 3]);
    let one: Vec<(bool, u64)> = r[&1].iter().map(|c| (c.redundant, c.stats.lost_packets)).collect();
    assert_eq!(one, vec![(false, 1), (true, 3), (true, 5)]);
    assert_eq!(r[&2].len(), 1);
    assert!(!r[&2][0].redundant);
    assert_eq!(r[&3].len(), 1);
    assert!(r[&3][0].redundant);
}

#[test]
fn stake_decides_admission() {
    let token: u128 = 1_000_000_000_000_000_000;
    assert!(lightning_core::endpoint::stake_admits(2, true, Some(2 * token)));
    assert!(!lightning_core::endpoint::stake_admits(2, true, Some(2 * token - 1)));
    assert!(!lightning_core::endpoint::stake_admits(2, false, Some(5 * token)));
    assert!(!lightning_core::endpoint::stake_admits(1, true, None));
    assert!(lightning_core::endpoint::stake_admits(0, true, None));
    assert!(lightning_core::endpoint::stake_admits(u128::MAX, true, Some(u128::MAX)) == false);
}

#[test]
fn an_understaked_peer_is_turned_away() {
    let mut e: State = EndpointState::new();
    e.route(9, ServiceRequest::SendMessage("wait"));
    assert!(e.accept_connection(9, 1, 10, true, Some(1)).is_none());
    assert!(!e.table.is_connected(9));
    assert_eq!(e.pending[&9].len(), 1);
    assert!(e.dialer.pending.contains(&9));
    let est = e.accept_connection(9, 1, 0, true, None).unwrap();
    assert_eq!(est.admission, Admission::Primary);
    assert_eq!(est.requests.len(), 1);
}
