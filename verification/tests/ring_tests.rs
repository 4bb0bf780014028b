use bytes::Bytes;
use cupidmq::ring::{ByteRing, QueuedMessage};

#[test]
fn ring_drop_oldest_when_full() {
    let mut ring = ByteRing::new(2);
    ring.push(Bytes::from_static(&[1]), 100);
    ring.push(Bytes::from_static(&[2]), 200);
    ring.push(Bytes::from_static(&[3]), 300);
    assert_eq!(ring.drops_total, 1);
    assert_eq!(ring.len(), 2);
    let msg = ring.pop_front().unwrap();
    assert_eq!(&msg.payload[..], &[2]);
    assert_eq!(msg.enqueued_ms, 200);
}

#[test]
fn byte_ring_drop_oldest_when_full() {
    let mut ring = ByteRing::new(2);
    ring.push(Bytes::from_static(&[1]), 100);
    ring.push(Bytes::from_static(&[2]), 200);
    ring.push(Bytes::from_static(&[3]), 300);
    assert_eq!(ring.drops_total, 1);
    assert_eq!(ring.len(), 2);
    let msg = ring.pop_front().unwrap();
    assert_eq!(&msg.payload[..], &[2]);
}

#[test]
fn push_front_drops_from_the_back() {
    let mut ring = ByteRing::new(3);
    ring.push(Bytes::from_static(&[1, 1]), 1);
    ring.push(Bytes::from_static(&[2]), 2);
    let dropped = ring.push_front(QueuedMessage { payload: Bytes::from_static(&[0, 0]), enqueued_ms: 0 });
    assert_eq!(dropped, 2);
    assert_eq!(ring.byte_len(), 2);
    assert_eq!(ring.len(), 1);
    assert_eq!(ring.pop_front().unwrap().enqueued_ms, 0);
    assert!(ring.is_empty());
}

#[test]
fn pop_up_to_takes_in_order_and_reports_age() {
    let mut ring = ByteRing::new(100);
    for i in 0..5u64 {
        ring.push(Bytes::from(vec![i as u8]), 10 + i);
    }
    assert_eq!(ring.head_age_ms(25), 15);
    let out = ring.pop_up_to(3, 30);
    assert_eq!(out.iter().map(|m| m.enqueued_ms).collect::<Vec<_>>(), vec![10, 11, 12]);
    assert_eq!(ring.len(), 2);
    assert_eq!(ring.total_drops(), 0);
}

#[test]
fn oversized_item_is_kept_alone() {
    let mut ring = ByteRing::new(2);
    ring.push(Bytes::from_static(&[1]), 1);
    let r = ring.push(Bytes::from_static(&[9, 9, 9]), 2);
    assert_eq!(r.dropped, 1);
    assert!(!r.accepted);
    assert_eq!(ring.len(), 1);
    assert_eq!(ring.byte_len(), 1);
    assert_eq!(ring.drops_total, 1);
}
