use bytes::Bytes;
use cupidmq::producer::{
    delivery_report_for, drain_for_assign, may_try_connect_after, LinkState, ProducerConfig, ProducerLocal,
    ProducerStats,
};
use cupidmq::protocol::{AssignRequest, DeliveryReport};
use cupidmq::ring::ByteRing;

fn assign(max_items: u16) -> AssignRequest {
    AssignRequest { max_items, consumer_tag: "t".into(), data_addr: "h:1".into() }
}

#[test]
fn config_builders_keep_at_least_one() {
    let c = ProducerConfig::new("m:1").max_batch_bytes(0).flush_timeout_ms(0).heartbeat_interval_ms(5);
    assert_eq!(c.max_batch_bytes, 1);
    assert_eq!(c.flush_timeout_ms, 1);
    assert_eq!(c.heartbeat_interval_ms, 5);
    assert_eq!(c.delivery_timeout_secs, 8);
}

#[test]
fn assignment_takes_published_items_within_limits() {
    let cfg = ProducerConfig::new("m:1").max_batch_bytes(5).outbound_max_bytes(100);
    let mut p = ProducerLocal::new(cfg);
    for i in 0..4u8 {
        p.publish_at(Bytes::from(vec![i; 2]), 10);
    }
    let items = p.take_for_assign_at(&assign(3), 20);
    // Batches of at most 5 bytes: two items of 2 bytes fit, the third would not.
    assert_eq!(items.len(), 2);
    assert_eq!(&items[0].payload[..], &[0, 0]);
    let report = delivery_report_for(&items);
    assert_eq!(report.msg_count, 2);
    assert_eq!(report.batch_bytes, 2 + 2 * (4 + 2));
    p.requeue_items(items);
    assert_eq!(p.ring.len(), 4);
    assert_eq!(&p.ring.pop_front().unwrap().payload[..], &[0, 0]);
}

#[test]
fn empty_assignment_when_nothing_published() {
    let mut p = ProducerLocal::new(ProducerConfig::new("m:1").outbound_max_bytes(100));
    assert!(p.take_for_assign_at(&assign(0), 1).is_empty());
}

#[test]
fn link_state_transitions() {
    let mut p = ProducerLocal::new(ProducerConfig::new("m:1").outbound_max_bytes(100));
    assert!(p.may_try_connect());
    p.on_connected();
    assert_eq!(p.link_state, LinkState::Idle);
    assert!(!p.begin_ready());
    p.publish_at(Bytes::from_static(&[1]), 1);
    p.flush_ingress_to_ring_at(2);
    assert!(p.begin_ready());
    assert_eq!(p.link_state, LinkState::Ready);
    assert!(!p.begin_ready());
    p.begin_assign();
    assert_eq!(p.link_state, LinkState::Busy);
    p.end_assign();
    assert_eq!(p.link_state, LinkState::Idle);
    p.mark_disconnected();
    assert!(!p.connected);
    assert_eq!(p.link_state, LinkState::Disconnected);
    let hb = p.collect_heartbeat();
    assert_eq!((hb.ring_messages, hb.ring_bytes, hb.pending_messages), (1, 1, 0));
}

#[test]
fn reconnect_waits_for_the_delay() {
    assert!(may_try_connect_after(true, Some(0), 2));
    assert!(may_try_connect_after(false, None, 2));
    assert!(!may_try_connect_after(false, Some(1_999), 2));
    assert!(may_try_connect_after(false, Some(2_000), 2));
}

#[test]
fn drain_puts_back_what_does_not_fit() {
    let mut ring = ByteRing::new(100);
    ring.push(Bytes::from_static(&[1; 4]), 1);
    ring.push(Bytes::from_static(&[2; 4]), 2);
    ring.push(Bytes::from_static(&[3; 4]), 3);
    let out = drain_for_assign(&mut ring, 10, 8);
    assert_eq!(out.len(), 2);
    assert_eq!(ring.len(), 1);
    let mut single = ByteRing::new(100);
    single.push(Bytes::from_static(&[9; 20]), 1);
    assert_eq!(drain_for_assign(&mut single, 10, 8).len(), 1);
}

#[test]
fn stats_count_deliveries_and_failures() {
    let mut s = ProducerStats::default();
    s.record_delivery(&DeliveryReport { msg_count: 0, batch_bytes: 2 });
    assert_eq!(s.published_batches, 0);
    s.record_delivery(&DeliveryReport { msg_count: 3, batch_bytes: 30 });
    s.record_failure();
    assert_eq!((s.published_items, s.published_bytes, s.published_batches, s.delivery_errors), (3, 30, 1, 1));
}

#[test]
fn accumulate_moves_closed_batches_and_keeps_the_open_one() {
    let cfg = ProducerConfig::new("m:1").max_batch_bytes(4).flush_timeout_ms(60_000).outbound_max_bytes(100);
    let mut p = ProducerLocal::new(cfg);
    for i in 0..3u8 {
        p.publish_at(Bytes::from(vec![i; 2]), 1);
    }
    assert!(p.can_flush());
    // The first two items fill a 4-byte batch, which the third closes.
    assert!(p.accumulate());
    assert_eq!(p.pending.len(), 0);
    assert_eq!(p.ring.len(), 2);
    assert_eq!(p.accumulator.pending_items(), 1);
    // Nothing new and the batch is still young: nothing gained.
    assert!(!p.accumulate());
    assert_eq!(p.ring.len(), 2);
}

#[test]
fn accumulate_at_flushes_on_timeout() {
    let cfg = ProducerConfig::new("m:1").max_batch_bytes(100).flush_timeout_ms(50).outbound_max_bytes(100);
    let mut p = ProducerLocal::new(cfg);
    p.publish_at(Bytes::from_static(&[1, 2]), 1);
    assert!(!p.accumulate_at(2, 10));
    assert_eq!(p.ring.len(), 0);
    assert!(p.accumulate_at(3, 50));
    assert_eq!(p.ring.len(), 1);
    assert_eq!(p.accumulator.pending_items(), 0);
}

#[test]
fn room_checks_and_drop_totals() {
    let p = ProducerLocal::new(ProducerConfig::new("m:1").outbound_max_bytes(100));
    assert!(p.pending.has_room(1));
    assert!(!p.pending.has_room(u32::MAX as usize));
    assert!(p.drops_fit());
    assert_eq!(p.drops_total(), 0);
}
