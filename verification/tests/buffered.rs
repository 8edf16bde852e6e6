use std::collections::VecDeque;

use lightning_core::buffered::{buffered_channel, BufferedReceiver, BufferedSender};

/// The channel between the two sides: batches in the order they were sent.
/// An empty queue with no sender left reads as closed.
fn send(tx: &mut BufferedSender<i32>, queue: &mut VecDeque<Vec<i32>>, value: i32) {
    if let Some(batch) = tx.send(value) {
        queue.push_back(batch);
    }
}

fn recv(rx: &mut BufferedReceiver<i32>, queue: &mut VecDeque<Vec<i32>>) -> Option<i32> {
    rx.recv(queue.pop_front())
}

#[test]
fn test_send_and_recv() {
    let (mut tx, mut rx) = buffered_channel(10);
    let mut queue = VecDeque::new();
    for i in 0..100 {
        send(&mut tx, &mut queue, i);
    }
    assert_eq!(queue.len(), 10);
    for target in 0..100 {
        let i = recv(&mut rx, &mut queue).unwrap();
        assert_eq!(i, target);
    }
}

#[test]
fn test_flush() {
    let (mut tx, mut rx) = buffered_channel(10);
    let mut queue = VecDeque::new();
    for i in 0..105 {
        send(&mut tx, &mut queue, i);
    }
    // The last five wait in the sender until a flush.
    assert_eq!(tx.buffer.len(), 5);
    queue.push_back(tx.flush());
    for target in 0..105 {
        let i = recv(&mut rx, &mut queue).unwrap();
        assert_eq!(i, target);
    }
    assert_eq!(recv(&mut rx, &mut queue), None);
}

#[test]
fn test_sender_dropped() {
    let (_tx, mut rx) = buffered_channel::<i32>(10);
    assert_eq!(rx.recv(None), None);
}

#[test]
fn test_one_sender_dropped() {
    let (tx1, mut rx) = buffered_channel(10);
    let mut tx2 = tx1.new_handle();
    drop(tx1);
    let mut queue = VecDeque::new();
    send(&mut tx2, &mut queue, 42);
    assert!(queue.is_empty());
    queue.push_back(tx2.flush());
    assert_eq!(recv(&mut rx, &mut queue), Some(42));
}

#[test]
fn test_all_senders_dropped() {
    let (tx1, mut rx) = buffered_channel::<i32>(10);
    let tx2 = tx1.new_handle();
    drop(tx1);
    drop(tx2);
    assert_eq!(rx.recv(None), None);
}

#[test]
fn a_batch_of_one_is_sent_at_once() {
    let mut tx = BufferedSender::new(1);
    assert_eq!(tx.send(7), Some(vec![7]));
    assert!(tx.buffer.is_empty());
}

#[test]
fn an_empty_batch_gives_out_what_is_buffered() {
    let mut rx = BufferedReceiver::new();
    assert_eq!(rx.recv(Some(vec![1, 2])), Some(1));
    assert_eq!(rx.recv(Some(Vec::new())), Some(2));
    assert_eq!(rx.recv(Some(Vec::new())), None);
}
