use std::time::Instant;

use lightning_core::muxer::MuxConnecction;
use lightning_core::state::{unhealthy_retry_delay, DialInfo};

#[test]
fn stream_ids_of_the_dialing_side_count_up() {
    let mut conn = MuxConnecction::new(true);
    assert_eq!(conn.get_next_sid(), 1);
    assert_eq!(conn.get_next_sid(), 2);
    assert_eq!(conn.get_next_sid(), 3);
}

#[test]
fn stream_ids_of_the_accepting_side_count_down() {
    let mut conn = MuxConnecction::new(false);
    assert_eq!(conn.get_next_sid(), -1);
    assert_eq!(conn.get_next_sid(), -2);
    assert!(!conn.did_we_establish_conn);
}

#[test]
fn retry_delay_is_capped() {
    // Ten seconds, doubled per failed try, at most thirty minutes.
    assert_eq!(unhealthy_retry_delay(0).as_nanos(), 10 * 1_000_000_000);
    assert_eq!(unhealthy_retry_delay(1).as_nanos(), 20 * 1_000_000_000);
    assert_eq!(unhealthy_retry_delay(3).as_nanos(), 80 * 1_000_000_000);
    assert_eq!(unhealthy_retry_delay(7).as_nanos(), 1280 * 1_000_000_000);
    assert_eq!(unhealthy_retry_delay(8).as_nanos(), 1800 * 1_000_000_000);
    assert_eq!(unhealthy_retry_delay(31).as_nanos(), 1800 * 1_000_000_000);
    assert_eq!(unhealthy_retry_delay(u32::MAX).as_nanos(), 1800 * 1_000_000_000);
}

#[test]
fn dial_info_counts_tries() {
    let now = Instant::now();
    let first = DialInfo::first_dial(now);
    assert_eq!(first.num_tries, 1);
    let later = Instant::now();
    let second = first.dialed_again(later);
    assert_eq!(second.num_tries, 2);
    assert_eq!(second.last_try, later);
    let reset = second.reset();
    assert_eq!(reset.num_tries, 0);
    assert_eq!(reset.last_try, later);
}
