use crust::channel::{Inner, RecvBuffer, RecvStep};

#[test]
fn ping_pong() {
    let mut inner = Inner::new();
    let mut rx = RecvBuffer::new();
    inner.send(42);
    assert!(matches!(rx.recv_locked(&mut inner), RecvStep::Item(42)));
}

#[test]
fn closed_tx() {
    let mut inner = Inner::<()>::new();
    let mut rx = RecvBuffer::new();
    assert!(inner.remove_sender());
    assert!(matches!(rx.recv_locked(&mut inner), RecvStep::Closed));
}

#[test]
fn closed_rx() {
    let mut inner = Inner::new();
    inner.send(42);
}

#[test]
fn test_buffer() {
    let mut inner = Inner::new();
    let mut rx = RecvBuffer::new();
    inner.send(42);
    inner.send(69);
    inner.send(81);
    inner.send(007);
    assert!(matches!(rx.recv_locked(&mut inner), RecvStep::Item(42)));
    assert_eq!(rx.buffer(), &[69, 81, 007]);
}

#[test]
fn open_and_empty_means_wait() {
    let mut inner = Inner::<i32>::new();
    let mut rx = RecvBuffer::new();
    assert!(matches!(rx.recv_locked(&mut inner), RecvStep::Wait));
}

#[test]
fn fifo_across_buffer_and_queue() {
    let mut inner = Inner::new();
    let mut rx = RecvBuffer::new();
    inner.send(1);
    inner.send(2);
    inner.send(3);
    assert!(matches!(rx.recv_locked(&mut inner), RecvStep::Item(1)));
    inner.send(4);
    assert_eq!(rx.recv_buffered(), Some(2));
    assert!(matches!(rx.recv_locked(&mut inner), RecvStep::Item(3)));
    assert!(matches!(rx.recv_locked(&mut inner), RecvStep::Item(4)));
    assert_eq!(rx.recv_buffered(), None);
    assert!(matches!(rx.recv_locked(&mut inner), RecvStep::Wait));
}

#[test]
fn sender_count_tracks_clones_and_drops() {
    let mut inner = Inner::<u8>::new();
    inner.add_sender();
    assert_eq!(inner.sender_count(), 2);
    assert!(!inner.remove_sender());
    assert!(inner.remove_sender());
    assert_eq!(inner.sender_count(), 0);
}

#[test]
fn pending_items_drain_before_close() {
    let mut inner = Inner::new();
    let mut rx = RecvBuffer::new();
    inner.send(5);
    assert!(inner.remove_sender());
    assert!(matches!(rx.recv_locked(&mut inner), RecvStep::Item(5)));
    assert!(matches!(rx.recv_locked(&mut inner), RecvStep::Closed));
}

#[test]
fn items_come_out_in_send_order() {
    let mut inner = Inner::new();
    let mut rx = RecvBuffer::new();
    let mut got = Vec::new();
    for i in 0..5 {
        inner.send(i);
    }
    if let RecvStep::Item(x) = rx.recv_locked(&mut inner) {
        got.push(x);
    }
    for i in 5..8 {
        inner.send(i);
    }
    loop {
        if let Some(x) = rx.recv_buffered() {
            got.push(x);
            continue;
        }
        match rx.recv_locked(&mut inner) {
            RecvStep::Item(x) => got.push(x),
            _ => break,
        }
    }
    assert_eq!(got, vec![0, 1, 2, 3, 4, 5, 6, 7]);
}
