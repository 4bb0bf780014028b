//! The master's state and what each event does to it: producers, consumers,
//! the matchmaker and the metrics, changed together. Sockets and timers
//! stay outside; each operation here is one step between them.

use crate::consumers::{
    delivered, find_consumer, stale_pairs_dropped, stale_released, update_consumer, ConsumerEntry,
    ConsumerPhase, ConsumerRegistry,
};
use crate::matcher::{remove_id, with_id, without_waiter, Matchmaker, PendingConsumer};
use crate::metrics::{assign_recorded, transfer_recorded, Metrics, TransferTick, TICK_BUFFER_CAP};
use crate::producers::{
    heartbeat_rematch, heartbeat_seq, lookup, released, update_id, ProducerEntry, ProducerRegistry,
    ProducerState,
};
use crate::protocol::{DeliveryReport, ProducerHeartbeat, ReadyRequest};
use std::path::PathBuf;
use vstd::prelude::*;

verus! {

/// Where the master listens and what it keeps.
#[derive(Debug, Clone)]
pub struct RelayConfig {
    pub control_addr: String,
    pub metrics_addr: String,
    pub history_interval_ms: u64,
    pub history_cap: usize,
    pub dashboard_dir: Option<PathBuf>,
}

/// The entry of a producer whose batch ended: counted as delivered (with
/// `msg_count` messages) or failed, free, and with no notice pending.
pub open spec fn batch_ended(e: ProducerEntry, ok: bool, msg_count: u64) -> ProducerEntry {
    if ok {
        ProducerEntry {
            rate_batches: e.rate_batches.wrapping_add(1),
            rate_msgs: e.rate_msgs.wrapping_add(msg_count),
            prdy_pending: false,
            ..released(e)
        }
    } else {
        ProducerEntry { rate_errors: e.rate_errors.wrapping_add(1), prdy_pending: false, ..released(e) }
    }
}

/// The consumer entry after its batch ended.
pub open spec fn consumer_batch_ended(e: ConsumerEntry, ok: bool, msg_count: u64, batch_bytes: u64, ts_ms: u64) -> ConsumerEntry {
    if ok {
        if msg_count == 0 {
            ConsumerEntry { unacked: 0, assigned_producer_id: None, state: ConsumerPhase::Idle, ..e }
        } else {
            delivered(e, msg_count, batch_bytes, ts_ms)
        }
    } else {
        ConsumerEntry { unacked: 0, assigned_producer_id: None, state: ConsumerPhase::DeliveryFailed, ..e }
    }
}

/// What the end of a delivery does to the producer: it is idle, with no
/// consumer and no send time, and no ready notice; a delivery counts one
/// more batch of `msg_count` messages, a failure one more error; its
/// reported backlog is left as it was.
pub proof fn lemma_producer_batch_outcome(e: ProducerEntry, ok: bool, msg_count: u64)
    ensures
        ({
            let e2 = batch_ended(e, ok, msg_count);
            &&& e2.id == e.id
            &&& e2.state == ProducerState::Idle
            &&& e2.pending_consumer_id is None
            &&& e2.busy_since_ms == 0
            &&& !e2.prdy_pending
            &&& e2.pending_messages == e.pending_messages && e2.ring_messages == e.ring_messages
            &&& e2.pending_bytes == e.pending_bytes && e2.ring_bytes == e.ring_bytes
            &&& ok ==> (e2.rate_batches == e.rate_batches.wrapping_add(1) && e2.rate_msgs == e.rate_msgs.wrapping_add(msg_count)
                && e2.rate_errors == e.rate_errors)
            &&& !ok ==> (e2.rate_errors == e.rate_errors.wrapping_add(1) && e2.rate_batches == e.rate_batches
                && e2.rate_msgs == e.rate_msgs)
        }),
{
}

/// What the end of a delivery does to the consumer it served: the consumer
/// no longer has a producer assigned; a delivery reported ok with messages
/// leaves it processing them, counted as one more batch of those messages
/// and bytes, delivered at `ts_ms`; a delivery reported ok with no messages
/// leaves it idle with nothing unacknowledged and its batch counters and
/// last delivery untouched; a failed delivery leaves it marked failed with
/// nothing unacknowledged and its counters untouched.
pub proof fn lemma_delivery_outcome(e: ConsumerEntry, ok: bool, msg_count: u64, batch_bytes: u64, ts_ms: u64)
    ensures
        ({
            let e2 = consumer_batch_ended(e, ok, msg_count, batch_bytes, ts_ms);
            &&& e2.id == e.id
            &&& e2.assigned_producer_id is None
            &&& (ok && msg_count == 0) ==> {
                &&& e2.state == ConsumerPhase::Idle
                &&& e2.unacked == 0
                &&& e2.rate_batches == e.rate_batches
                &&& e2.rate_bytes == e.rate_bytes
                &&& e2.last_batch_items == e.last_batch_items
                &&& e2.last_batch_bytes == e.last_batch_bytes
                &&& e2.last_batch_delivered_ms == e.last_batch_delivered_ms
            }
            &&& (ok && msg_count > 0) ==> {
                &&& e2.state == ConsumerPhase::Processing
                &&& e2.unacked == msg_count
                &&& e2.rate_batches == e.rate_batches.wrapping_add(1)
                &&& e2.rate_bytes == e.rate_bytes.wrapping_add(batch_bytes)
                &&& e2.last_batch_items == msg_count
                &&& e2.last_batch_bytes == batch_bytes
                &&& e2.last_batch_delivered_ms == ts_ms
            }
            &&& !ok ==> {
                &&& e2.state == ConsumerPhase::DeliveryFailed
                &&& e2.unacked == 0
                &&& e2.rate_batches == e.rate_batches
                &&& e2.rate_bytes == e.rate_bytes
                &&& e2.last_batch_items == e.last_batch_items
                &&& e2.last_batch_bytes == e.last_batch_bytes
                &&& e2.last_batch_delivered_ms == e.last_batch_delivered_ms
            }
        }),
{
}

/// Producers, consumers, matchmaking and metrics.
pub struct RelayState {
    pub producers: ProducerRegistry,
    pub consumers: ConsumerRegistry,
    pub matcher: Matchmaker,
    pub metrics: Metrics,
}

impl RelayState {
    pub open spec fn wf(&self) -> bool {
        &&& self.producers.wf()
        &&& self.consumers.wf()
        &&& self.matcher.wf()
        &&& self.metrics.wf()
    }

    pub fn new() -> (r: Self)
        ensures
            r.wf(),
            r.producers@ == Seq::<ProducerEntry>::empty(),
            r.consumers@ == Seq::<ConsumerEntry>::empty(),
            r.matcher.pool() == Seq::<u64>::empty(),
            r.matcher.queue() == Seq::<PendingConsumer>::empty(),
            r.producers.next_id() == 1,
            r.consumers.next_id() == 1,
            r.consumers.awaiting() == Set::<(u64, u64)>::empty(),
            r.matcher.consumer_cursor() == 0,
            r.matcher.producer_cursor() == 0,
            r.metrics.transfers_total == 0 && r.metrics.transfer_bytes_total == 0 && r.metrics.batches_total == 0,
            r.metrics.delivery_failures_total == 0 && r.metrics.requeue_total == 0,
            r.metrics.ticks.ticks() == Seq::<TransferTick>::empty(),
            r.metrics.ticks.capacity() == TICK_BUFFER_CAP,
    {
        RelayState {
            producers: ProducerRegistry::new(),
            consumers: ConsumerRegistry::new(),
            matcher: Matchmaker::new(),
            metrics: Metrics::new(),
        }
    }

    /// The assignment of `producer_id` to `consumer_id` was sent at `ts_ms`:
    /// the producer is busy with it, other consumers still awaiting that
    /// producer are released, the consumer awaits the batch, and a tick is
    /// recorded.
    pub fn assign_sent(&mut self, producer_id: u64, consumer_id: u64, ts_ms: u64)
        requires
            old(self).wf(),
        ensures
            final(self).wf(),
            final(self).producers@ == update_id(
                old(self).producers@,
                producer_id,
                |e: ProducerEntry| ProducerEntry {
                    state: ProducerState::Busy,
                    pending_consumer_id: Some(consumer_id),
                    busy_since_ms: ts_ms,
                    ..e
                },
            ),
            final(self).producers.next_id() == old(self).producers.next_id(),
            final(self).consumers@ == update_consumer(
                stale_released(old(self).consumers@, old(self).consumers.awaiting(), producer_id, consumer_id),
                consumer_id,
                |e: ConsumerEntry| ConsumerEntry {
                    assigned_producer_id: Some(producer_id),
                    state: ConsumerPhase::AwaitingBatch,
                    ..e
                },
            ),
            final(self).consumers.awaiting() == stale_pairs_dropped(old(self).consumers.awaiting(), producer_id, consumer_id).insert(
                (producer_id, consumer_id),
            ),
            final(self).consumers.next_id() == old(self).consumers.next_id(),
            final(self).matcher == old(self).matcher,
            assign_recorded(old(self).metrics, final(self).metrics, producer_id, consumer_id, "busy"@, "awaiting_batch"@, ts_ms),
    {
        self.producers.mark_assigned_at(producer_id, consumer_id, ts_ms);
        self.consumers.release_stale_assignments(producer_id, consumer_id);
        self.consumers.mark_awaiting_batch(consumer_id, producer_id);
        self.metrics.record_assign_tick_at(producer_id, consumer_id, "busy", "awaiting_batch", ts_ms);
    }

    /// Producer `producer_id` reported the end of its batch at `ts_ms`
    /// (`ok`: delivered; else failed with `fail_message`). The consumer it
    /// served is its assignment's, or else one found awaiting it; that
    /// consumer's batch ends (see `consumer_batch_ended`) and the outcome is
    /// recorded. The producer is counted, freed and leaves the pool.
    /// Returns the consumer, if one was found.
    pub fn finish_producer_batch(
        &mut self,
        producer_id: u64,
        report: &DeliveryReport,
        ok: bool,
        fail_message: Option<String>,
        ts_ms: u64,
    ) -> (r: Option<u64>)
        requires
            old(self).wf(),
        ensures
            final(self).wf(),
            ({
                let pending = match lookup(old(self).producers@, producer_id) {
                    Some(e) => e.pending_consumer_id,
                    None => None,
                };
                match pending {
                    Some(c) if c > 0 => r == Some(c),
                    _ => match r {
                        Some(c) => c > 0 && (find_consumer(old(self).consumers@, c) matches Some(ce)
                            && ce.assigned_producer_id == Some(producer_id)),
                        None => forall|j: int| 0 <= j < old(self).consumers@.len()
                            ==> old(self).consumers@[j].assigned_producer_id != Some(producer_id),
                    },
                }
            }),
            final(self).producers@ == update_id(
                old(self).producers@,
                producer_id,
                |e: ProducerEntry| batch_ended(e, ok, report.msg_count as u64),
            ),
            final(self).producers.next_id() == old(self).producers.next_id(),
            final(self).matcher.pool() == remove_id(old(self).matcher.pool(), producer_id),
            final(self).matcher.queue() == old(self).matcher.queue(),
            final(self).consumers.next_id() == old(self).consumers.next_id(),
            r matches Some(c) ==> (find_consumer(old(self).consumers@, c) matches Some(e) ==> (
                find_consumer(final(self).consumers@, c) matches Some(e2)
                && e2.assigned_producer_id is None
                && ((ok && report.msg_count == 0) ==> (e2.state == ConsumerPhase::Idle && e2.unacked == 0
                    && e2.rate_batches == e.rate_batches && e2.rate_bytes == e.rate_bytes
                    && e2.last_batch_items == e.last_batch_items && e2.last_batch_bytes == e.last_batch_bytes
                    && e2.last_batch_delivered_ms == e.last_batch_delivered_ms))
                && ((ok && report.msg_count > 0) ==> (e2.state == ConsumerPhase::Processing
                    && e2.unacked == report.msg_count as u64 && e2.rate_batches == e.rate_batches.wrapping_add(1)
                    && e2.last_batch_items == report.msg_count as u64 && e2.last_batch_bytes == report.batch_bytes as u64
                    && e2.last_batch_delivered_ms == ts_ms))
                && (!ok ==> (e2.state == ConsumerPhase::DeliveryFailed && e2.unacked == 0
                    && e2.rate_batches == e.rate_batches && e2.last_batch_items == e.last_batch_items
                    && e2.last_batch_delivered_ms == e.last_batch_delivered_ms)))),
            match r {
                Some(c) => {
                    &&& final(self).consumers@ == update_consumer(
                        old(self).consumers@,
                        c,
                        |e: ConsumerEntry| consumer_batch_ended(e, ok, report.msg_count as u64, report.batch_bytes as u64, ts_ms),
                    )
                    &&& final(self).consumers.awaiting() == match find_consumer(old(self).consumers@, c) {
                        Some(ce) => match ce.assigned_producer_id {
                            Some(p) => old(self).consumers.awaiting().remove((p, c)),
                            None => old(self).consumers.awaiting(),
                        },
                        None => old(self).consumers.awaiting(),
                    }
                    &&& transfer_recorded(old(self).metrics, final(self).metrics, producer_id, c,
                        report.msg_count as u64, report.batch_bytes as u64, ok, fail_message, "busy"@,
                        if ok { "processing"@ } else { "delivery_failed"@ }, ts_ms)
                },
                None => {
                    &&& final(self).consumers@ == old(self).consumers@
                    &&& final(self).consumers.awaiting() == old(self).consumers.awaiting()
                    &&& final(self).metrics == old(self).metrics
                },
            },
    {
        let msg_count = report.msg_count as u64;
        let batch_bytes = report.batch_bytes as u64;
        let ghost p0 = self.producers@;
        let pending = self.producers.take_pending_consumer(producer_id);
        let consumer = match pending {
            Some(c) if c > 0 => Some(c),
            _ => match self.consumers.find_id_by_assigned_producer(producer_id) {
                Some(c) if c > 0 => Some(c),
                _ => None,
            },
        };
        match consumer {
            Some(c) => {
                let ghost c0 = self.consumers@;
                if ok {
                    self.consumers.finish_batch(c, msg_count, batch_bytes, ts_ms, msg_count == 0);
                } else {
                    self.consumers.set_unacked(c, 0);
                    let ghost c1 = self.consumers@;
                    self.consumers.set_phase(c, ConsumerPhase::DeliveryFailed);
                    proof {
                        assert(c1 == update_consumer(c0, c, |e: ConsumerEntry| ConsumerEntry { unacked: 0, ..e }));
                        assert(find_consumer(c1, c) == match find_consumer(c0, c) {
                            Some(e) => Some(ConsumerEntry { unacked: 0, ..e }),
                            None => None,
                        }) by {
                            crate::consumers::lemma_find_update(c0, c, |e: ConsumerEntry| ConsumerEntry { unacked: 0, ..e }, c);
                            crate::consumers::lemma_find_id(c0, c);
                        }
                    }
                }
                assert(self.consumers@ =~= update_consumer(
                    c0,
                    c,
                    |e: ConsumerEntry| consumer_batch_ended(e, ok, msg_count, batch_bytes, ts_ms),
                ));
                proof {
                    let f = |e: ConsumerEntry| consumer_batch_ended(e, ok, msg_count, batch_bytes, ts_ms);
                    crate::consumers::lemma_find_update(c0, c, f, c);
                    crate::consumers::lemma_find_id(c0, c);
                    if let Some(e) = find_consumer(c0, c) {
                        lemma_delivery_outcome(e, ok, msg_count, batch_bytes, ts_ms);
                    }
                }
                let cstate = if ok { "processing" } else { "delivery_failed" };
                self.metrics.record_transfer_tick_at(producer_id, c, msg_count, batch_bytes, ok, fail_message, "busy", cstate, ts_ms);
            },
            None => {},
        }
        let ghost p1 = self.producers@;
        if ok {
            self.producers.record_delivery(producer_id, msg_count);
        } else {
            self.producers.record_failure(producer_id);
        }
        self.matcher.on_producer_done(&mut self.producers, producer_id);
        assert(self.producers@ =~= update_id(p0, producer_id, |e: ProducerEntry| batch_ended(e, ok, msg_count)));
        consumer
    }

    /// A heartbeat from producer `producer_id` at `now_ms` (see
    /// `record_heartbeat_at`); a producer to match again joins the pool.
    /// Returns whether a match should be tried: after such a rejoin, or when
    /// the producer is ready and consumers wait.
    pub fn on_heartbeat(&mut self, producer_id: u64, hb: ProducerHeartbeat, now_ms: u64) -> (r: bool)
        requires
            old(self).wf(),
        ensures
            final(self).wf(),
            final(self).producers@ == heartbeat_seq(old(self).producers@, producer_id, hb, now_ms),
            final(self).producers.next_id() == old(self).producers.next_id(),
            final(self).matcher.pool() == if heartbeat_rematch(old(self).producers@, producer_id, hb, now_ms) {
                with_id(old(self).matcher.pool(), producer_id)
            } else {
                old(self).matcher.pool()
            },
            final(self).matcher.queue() == old(self).matcher.queue(),
            final(self).consumers == old(self).consumers,
            final(self).metrics == old(self).metrics,
            r == (heartbeat_rematch(old(self).producers@, producer_id, hb, now_ms) || ((lookup(
                final(self).producers@,
                producer_id,
            ) matches Some(e) && e.state == ProducerState::Ready) && old(self).matcher.queue().len() > 0)),
    {
        let rematch = self.producers.record_heartbeat_at(producer_id, hb, now_ms);
        if rematch {
            self.matcher.wake_producer(producer_id);
            return true;
        }
        let ready = match self.producers.state_of(producer_id) {
            Some(ProducerState::Ready) => true,
            _ => false,
        };
        ready && self.matcher.waiting_count() > 0
    }

    /// Consumer `consumer_id` asked at `ts_ms` for a batch (`ready`), to be
    /// received at `data_addr`: it begins a cycle and waits for a match.
    /// Returns the time since its last delivery, if any.
    pub fn on_consumer_ready(&mut self, consumer_id: u64, ready: ReadyRequest, data_addr: String, ts_ms: u64) -> (r: Option<u64>)
        requires
            old(self).wf(),
        ensures
            final(self).wf(),
            r == (match find_consumer(old(self).consumers@, consumer_id) {
                Some(e) => crate::consumers::cycle_sample(e, ts_ms),
                None => None,
            }),
            crate::consumers::cycle_begun(old(self).consumers@, final(self).consumers@, consumer_id, ready.max_items, ready.consumer_tag@),
            final(self).consumers.awaiting() == match find_consumer(old(self).consumers@, consumer_id) {
                Some(e) => match e.assigned_producer_id {
                    Some(p) => old(self).consumers.awaiting().remove((p, consumer_id)),
                    None => old(self).consumers.awaiting(),
                },
                None => old(self).consumers.awaiting(),
            },
            final(self).consumers.next_id() == old(self).consumers.next_id(),
            final(self).matcher.queue() == without_waiter(old(self).matcher.queue(), consumer_id).push(
                PendingConsumer { consumer_id, ready, data_addr },
            ),
            final(self).matcher.pool() == old(self).matcher.pool(),
            final(self).producers == old(self).producers,
            final(self).metrics == old(self).metrics,
    {
        let sample = self.consumers.begin_cycle(consumer_id, ready.max_items, ready.consumer_tag.as_str(), ts_ms);
        self.matcher.enqueue_consumer(consumer_id, ready, data_addr);
        sample
    }

    /// Consumer `consumer_id` disconnected: out of the queue (see
    /// `Matchmaker::cancel_consumer`) and out of the registry. Returns its
    /// queue entry, if it had one, and whether producers were freed so that a
    /// match may follow.
    pub fn on_consumer_disconnect(&mut self, consumer_id: u64) -> (r: (Option<PendingConsumer>, bool))
        requires
            old(self).wf(),
        ensures
            final(self).wf(),
            ({
                let q = old(self).matcher.queue();
                let k = crate::matcher::waiter_index(q, consumer_id);
                if k < q.len() {
                    r.0 == Some(q[k]) && final(self).matcher.queue() == q.update(k, q.last()).drop_last()
                } else {
                    r.0 is None && final(self).matcher.queue() == q
                }
            }),
            r.1 == (crate::producers::count_assigned(old(self).producers@, consumer_id) > 0),
            final(self).producers@ == old(self).producers@.map_values(
                |e: ProducerEntry| crate::producers::unassigned(e, consumer_id),
            ),
            final(self).consumers@ == crate::consumers::without_consumer(old(self).consumers@, consumer_id),
            final(self).consumers.awaiting() == match find_consumer(old(self).consumers@, consumer_id) {
                Some(e) => match e.assigned_producer_id {
                    Some(p) => old(self).consumers.awaiting().remove((p, consumer_id)),
                    None => old(self).consumers.awaiting(),
                },
                None => old(self).consumers.awaiting(),
            },
            final(self).matcher.pool() == old(self).matcher.pool(),
            final(self).metrics == old(self).metrics,
    {
        let r = self.matcher.cancel_consumer(&mut self.producers, consumer_id);
        self.consumers.remove(consumer_id);
        r
    }
}

} // verus!
