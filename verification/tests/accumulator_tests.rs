use bytes::Bytes;
use cupidmq::accumulator::BatchAccumulator;

#[test]
fn flush_on_size() {
    let mut acc = BatchAccumulator::new(10, 60_000);
    assert!(acc.push(Bytes::from_static(&[1; 6])).is_empty());
    let batches = acc.push(Bytes::from_static(&[2; 6]));
    assert_eq!(batches.len(), 1);
    assert_eq!(batches[0].len(), 1);
    assert_eq!(batches[0][0].len(), 6);
    assert_eq!(acc.pending_items(), 1);
}

#[test]
fn oversized_item_own_batch() {
    let mut acc = BatchAccumulator::new(10, 60_000);
    acc.push(Bytes::from_static(&[1; 4]));
    let batches = acc.push(Bytes::from_static(&[9; 20]));
    assert_eq!(batches.len(), 2);
    assert_eq!(batches[0].len(), 1);
    assert_eq!(batches[1][0].len(), 20);
}

#[test]
fn flush_if_elapsed_waits_for_timeout() {
    let mut acc = BatchAccumulator::new(100, 50);
    acc.push(Bytes::from_static(&[1, 2]));
    assert!(acc.flush_if_elapsed(10).is_none());
    let batch = acc.flush_if_elapsed(50).unwrap();
    assert_eq!(batch.len(), 1);
    assert!(acc.is_empty());
    assert_eq!(acc.pending_bytes(), 0);
    assert!(acc.take_batch().is_none());
}

#[test]
fn flush_if_timeout_with_zero_timeout_flushes() {
    let mut acc = BatchAccumulator::new(100, 0);
    assert!(acc.flush_if_timeout().is_none());
    acc.push(Bytes::from_static(&[7, 8, 9]));
    let batch = acc.flush_if_timeout().unwrap();
    assert_eq!(batch.len(), 1);
    assert_eq!(batch[0].as_ref(), &[7, 8, 9]);
    assert!(acc.is_empty());
}
