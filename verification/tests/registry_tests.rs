use cupidmq::consumers::{ConsumerPhase, ConsumerRegistry};
use cupidmq::matcher::{Matchmaker, PendingConsumer};
use cupidmq::producers::{ProducerRegistry, ProducerState};
use cupidmq::protocol::{DeliveryReport, ProducerHeartbeat, ReadyRequest};
use cupidmq::relay::RelayState;

fn pending(id: u64) -> PendingConsumer {
    PendingConsumer {
        consumer_id: id,
        ready: ReadyRequest { max_items: 32, consumer_tag: format!("c-{id}") },
        data_addr: format!("127.0.0.1:{id}"),
    }
}

fn hb(pm: u32, pb: u32, rm: u32, rb: u32, drops: u64) -> ProducerHeartbeat {
    ProducerHeartbeat { pending_messages: pm, pending_bytes: pb, ring_messages: rm, ring_bytes: rb, drops_total: drops }
}

#[test]
fn backlog_weight_prefers_msgs_then_bytes() {
    let mut registry = ProducerRegistry::new();
    let id = registry.register("test".into());
    registry.record_heartbeat(id, hb(2, 100, 3, 500, 0));
    assert_eq!(registry.backlog_weight(id), (5, 600));
}

#[test]
fn ready_producer_reenters_pool_on_duplicate_prdy() {
    let mut producers = ProducerRegistry::new();
    let mut matcher = Matchmaker::new();
    let pid = producers.register("test".into());

    matcher.on_producer_ready(&mut producers, pid);
    assert_eq!(matcher.ready_pool_len(), 1);

    // Simulates desync: ready in registry, empty pool.
    matcher.clear_ready_pool();

    matcher.on_producer_ready(&mut producers, pid);
    assert!(matcher.ready_contains(pid));
}

#[test]
fn consumer_round_robin_not_fifo() {
    let mut matcher = Matchmaker::new();
    matcher.push_waiting(pending(1));
    matcher.push_waiting(pending(2));
    matcher.push_waiting(pending(3));
    let picks = [
        matcher.take_next_waiting().unwrap().consumer_id,
        matcher.take_next_waiting().unwrap().consumer_id,
        matcher.take_next_waiting().unwrap().consumer_id,
    ];
    assert_eq!(picks, [1, 3, 2]);

    matcher.push_waiting(pending(10));
    matcher.push_waiting(pending(20));
    assert_eq!(matcher.take_next_waiting().unwrap().consumer_id, 10);
    assert_eq!(matcher.take_next_waiting().unwrap().consumer_id, 20);
    matcher.push_waiting(pending(10));
    matcher.push_waiting(pending(20));
    assert_eq!(matcher.take_next_waiting().unwrap().consumer_id, 10);
    assert_eq!(matcher.take_next_waiting().unwrap().consumer_id, 20);
}

#[test]
fn producer_disconnect_requeues_awaiting_batch_consumer() {
    let mut producers = ProducerRegistry::new();
    let mut consumers = ConsumerRegistry::new();
    let mut matcher = Matchmaker::new();
    let pid = producers.register("test".into());
    let cid = consumers.register("127.0.0.1:1".into(), "127.0.0.1:9760".into());
    consumers.begin_cycle(cid, 32, "c1", 0);
    consumers.set_phase(cid, ConsumerPhase::AwaitingBatch);
    producers.mark_assigned(pid, cid);

    matcher.on_producer_disconnect(&mut producers, &mut consumers, pid);

    assert_eq!(consumers.state_of(cid).map(|p| p.as_str()), Some("matcher_queue"));
    assert_eq!(matcher.waiting_count(), 1);
}

#[test]
fn counts_follow_states() {
    let mut producers = ProducerRegistry::new();
    let a = producers.register("a".into());
    let b = producers.register("b".into());
    assert_eq!((a, b), (1, 2));
    producers.set_state(a, ProducerState::Ready);
    producers.set_state(b, ProducerState::Busy);
    assert_eq!((producers.ready_count(), producers.busy_count()), (1, 1));
    producers.set_state(a, ProducerState::Busy);
    assert_eq!((producers.ready_count(), producers.busy_count()), (0, 2));
    producers.remove(b);
    assert_eq!((producers.ready_count(), producers.busy_count()), (0, 1));
    assert!(producers.clear_stale_busy(a, "test"));
    assert_eq!(producers.state_of(a), Some(ProducerState::Idle));
    assert!(!producers.clear_stale_busy(a, "test"));
    assert_eq!(producers.state_of(b), None);
}

#[test]
fn ranking_prefers_messages_then_bytes_then_rotates_ties() {
    let mut producers = ProducerRegistry::new();
    let a = producers.register("a".into());
    let b = producers.register("b".into());
    let c = producers.register("c".into());
    let d = producers.register("d".into());
    producers.record_heartbeat_at(a, hb(0, 0, 3, 10, 0), 0);
    producers.record_heartbeat_at(b, hb(0, 0, 3, 50, 0), 0);
    producers.record_heartbeat_at(c, hb(1, 0, 2, 50, 0), 0);
    let mut rr = 0usize;
    let (best, stale) = producers.rank_ready_candidates(&[a, 99, b, c, d], &mut rr);
    // b and c tie on (3, 50); the tie is broken by id, in turn.
    assert_eq!(best, Some(b));
    assert_eq!(stale, vec![99, d]);
    assert_eq!(rr, 1);
    let (best, _) = producers.rank_ready_candidates(&[c, b, a], &mut rr);
    assert_eq!(best, Some(c));
    assert_eq!(rr, 0);
    let (best, stale) = producers.rank_ready_candidates(&[d], &mut rr);
    assert_eq!((best, stale), (None, vec![d]));
}

#[test]
fn stale_ready_candidate_goes_idle() {
    let mut producers = ProducerRegistry::new();
    let a = producers.register("a".into());
    producers.set_state(a, ProducerState::Ready);
    let mut rr = 0usize;
    let (best, stale) = producers.rank_ready_candidates(&[a], &mut rr);
    assert_eq!((best, stale), (None, vec![a]));
    assert_eq!(producers.state_of(a), Some(ProducerState::Idle));
    assert_eq!(producers.ready_count(), 0);
}

#[test]
fn heartbeat_frees_stale_busy_producer() {
    let mut producers = ProducerRegistry::new();
    let a = producers.register("a".into());
    producers.mark_assigned_at(a, 7, 1_000);
    assert!(!producers.record_heartbeat_at(a, hb(0, 0, 0, 0, 0), 2_000));
    assert_eq!(producers.state_of(a), Some(ProducerState::Busy));
    assert!(!producers.record_heartbeat_at(a, hb(0, 0, 0, 0, 4), 16_000));
    assert_eq!(producers.state_of(a), Some(ProducerState::Idle));
    assert_eq!(producers.entry(a).unwrap().pending_consumer_id, None);
    assert_eq!(producers.entry(a).unwrap().rate_drops, 4);
    producers.mark_assigned_at(a, 7, 20_000);
    assert!(producers.record_heartbeat_at(a, hb(0, 0, 1, 1, 4), 20_001));
    assert_eq!(producers.state_of(a), Some(ProducerState::Ready));
    assert!(producers.has_backlog(a));
}

#[test]
fn totals_and_clearing_assignments() {
    let mut producers = ProducerRegistry::new();
    let a = producers.register("a".into());
    let b = producers.register("b".into());
    producers.record_heartbeat_at(a, hb(1, 10, 2, 20, 5), 0);
    producers.record_heartbeat_at(b, hb(3, 30, 4, 40, u64::MAX), 0);
    let t = producers.backlog_totals();
    assert_eq!((t.pending_messages, t.pending_bytes, t.ring_messages, t.ring_bytes), (4, 40, 6, 60));
    assert_eq!(t.drops_total, u64::MAX);
    assert_eq!((t.backlog_messages(), t.backlog_bytes()), (10, 100));
    producers.mark_assigned(a, 9);
    producers.mark_assigned(b, 9);
    assert_eq!(producers.clear_assignments_to_consumer(9), 2);
    assert_eq!(producers.busy_count(), 0);
    assert_eq!(producers.take_pending_consumer(a), None);
}

#[test]
fn sync_ready_pool_reconciles() {
    let mut producers = ProducerRegistry::new();
    let mut matcher = Matchmaker::new();
    let a = producers.register("a".into());
    let b = producers.register("b".into());
    producers.record_heartbeat_at(b, hb(0, 0, 1, 1, 0), 0);
    matcher.wake_producer(a);
    matcher.wake_producer(42);
    matcher.sync_ready_pool(&mut producers);
    assert!(!matcher.ready_contains(a));
    assert!(!matcher.ready_contains(42));
    assert!(matcher.ready_contains(b));
    assert_eq!(producers.state_of(b), Some(ProducerState::Ready));
}

#[test]
fn consumer_registry_cycle() {
    let mut consumers = ConsumerRegistry::new();
    let c = consumers.register("a".into(), "h:1".into());
    assert_eq!(consumers.entry(c).unwrap().consumer_tag, "consumer-1");
    assert_eq!(consumers.begin_cycle(c, 0, "", 5), None);
    let (ready, data) = consumers.match_context(c).unwrap();
    assert_eq!((ready.max_items, ready.consumer_tag.as_str(), data.as_str()), (1, "consumer-1", "h:1"));
    consumers.mark_awaiting_batch(c, 3);
    assert_eq!(consumers.find_id_by_assigned_producer(3), Some(c));
    consumers.finish_batch(c, 4, 40, 100, false);
    assert_eq!(consumers.state_of(c), Some(ConsumerPhase::Processing));
    assert_eq!(consumers.unacked_total(), 4);
    assert_eq!(consumers.begin_cycle(c, 8, "tag", 130), Some(30));
    assert_eq!(consumers.entry(c).unwrap().consumer_tag, "tag");
    assert_eq!(consumers.phase_counts(), (1, 0, 0));
    assert_eq!(consumers.on_ready(c, 2, 90), None);
    consumers.set_unacked(c, 3);
    consumers.record_batch(c, 1, 2, 200);
    assert_eq!(consumers.entry(c).unwrap().rate_batches, 2);
}

#[test]
fn new_assignment_releases_stale_awaiting_consumers() {
    let mut consumers = ConsumerRegistry::new();
    let c1 = consumers.register("a".into(), "h:1".into());
    let c2 = consumers.register("b".into(), "h:2".into());
    consumers.mark_awaiting_batch(c1, 5);
    consumers.release_stale_assignments(5, c2);
    assert_eq!(consumers.state_of(c1), Some(ConsumerPhase::Idle));
    assert_eq!(consumers.find_id_by_assigned_producer(5), None);
    consumers.mark_awaiting_batch(c2, 5);
    consumers.release_stale_assignments(5, c2);
    assert_eq!(consumers.state_of(c2), Some(ConsumerPhase::AwaitingBatch));
    consumers.remove(c2);
    assert_eq!(consumers.state_of(c2), None);
}

#[test]
fn matching_round_trip_through_relay() {
    let mut relay = RelayState::new();
    let p = relay.producers.register("p".into());
    let c = relay.consumers.register("c".into(), "h:9".into());
    relay.on_consumer_ready(c, ReadyRequest { max_items: 4, consumer_tag: "t".into() }, "h:9".into(), 10);
    assert_eq!(relay.matcher.next_assignment(&mut relay.producers).unwrap().is_none(), true);
    relay.matcher.on_producer_ready(&mut relay.producers, p);
    assert!(relay.on_heartbeat(p, hb(0, 0, 2, 20, 0), 11));
    let a = relay.matcher.next_assignment(&mut relay.producers).unwrap().unwrap();
    assert_eq!(a.producer_id, p);
    assert_eq!(a.consumer.consumer_id, c);
    assert_eq!(&a.frame[..4], b"ASGN");
    relay.assign_sent(p, c, 12);
    assert_eq!(relay.producers.state_of(p), Some(ProducerState::Busy));
    assert_eq!(relay.consumers.state_of(c), Some(ConsumerPhase::AwaitingBatch));
    assert_eq!(relay.metrics.ticks_buffered(), 1);
    let got = relay.finish_producer_batch(p, &DeliveryReport { msg_count: 2, batch_bytes: 30 }, true, None, 13);
    assert_eq!(got, Some(c));
    assert_eq!(relay.consumers.state_of(c), Some(ConsumerPhase::Processing));
    assert_eq!(relay.producers.state_of(p), Some(ProducerState::Idle));
    assert_eq!((relay.metrics.transfers_total, relay.metrics.batches_total), (2, 1));
    let ticks = relay.metrics.drain_ticks();
    assert_eq!(ticks.len(), 2);
    assert_eq!((ticks[0].phase.as_str(), ticks[1].phase.as_str()), ("assign", "deliver"));
    assert!(!relay.matcher.ready_contains(p));
}

#[test]
fn failed_delivery_marks_consumer_and_counts_requeue() {
    let mut relay = RelayState::new();
    let p = relay.producers.register("p".into());
    let c = relay.consumers.register("c".into(), "h:9".into());
    relay.assign_sent(p, c, 1);
    let got = relay.finish_producer_batch(p, &DeliveryReport { msg_count: 3, batch_bytes: 9 }, false, Some("timeout".into()), 2);
    assert_eq!(got, Some(c));
    assert_eq!(relay.consumers.state_of(c), Some(ConsumerPhase::DeliveryFailed));
    assert_eq!((relay.metrics.delivery_failures_total, relay.metrics.requeue_total), (1, 3));
    assert_eq!(relay.producers.entry(p).unwrap().rate_errors, 1);
}

#[test]
fn consumer_disconnect_leaves_queue_and_frees_producers() {
    let mut relay = RelayState::new();
    let p = relay.producers.register("p".into());
    let c = relay.consumers.register("c".into(), "h:9".into());
    relay.matcher.push_waiting(pending(c));
    relay.producers.mark_assigned(p, c);
    let (entry, rematch) = relay.on_consumer_disconnect(c);
    assert_eq!(entry.map(|e| e.consumer_id), Some(c));
    assert!(rematch);
    assert_eq!(relay.matcher.waiting_count(), 0);
    assert_eq!(relay.consumers.state_of(c), None);
    assert_eq!(relay.producers.state_of(p), Some(ProducerState::Idle));
}
