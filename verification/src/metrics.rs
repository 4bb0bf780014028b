//! Transfer counters and the buffer of transfer events ("ticks") that the
//! dashboard drains.

use crate::producers::ProducerState;
use std::collections::VecDeque;
use vstd::prelude::*;

verus! {

/// The most ticks a buffer holds.
pub const TICK_BUFFER_CAP: usize = 65_536;

/// One transfer event: an assignment, a delivery or a failure.
#[derive(Debug, Clone)]
pub struct TransferTick {
    pub ts_ms: u64,
    pub producer_id: u64,
    pub consumer_id: u64,
    pub msg_count: u64,
    pub batch_bytes: u64,
    /// `assign`, `deliver` or `fail`.
    pub phase: String,
    pub ok: bool,
    /// The producer's message, for a failure.
    pub fail_message: Option<String>,
    pub producer_state: String,
    pub consumer_state: String,
}

/// `cap` brought within `1..=TICK_BUFFER_CAP`.
pub open spec fn clamp_cap(cap: usize) -> usize {
    if cap < 1 {
        1
    } else if cap > TICK_BUFFER_CAP {
        TICK_BUFFER_CAP
    } else {
        cap
    }
}

/// The newest ticks, at most `cap` of them; the oldest leaves first.
pub struct TickBuffer {
    inner: VecDeque<TransferTick>,
    cap: usize,
}

impl TickBuffer {
    /// The ticks held, oldest first.
    pub closed spec fn ticks(&self) -> Seq<TransferTick> {
        self.inner@
    }

    /// How many ticks it keeps.
    pub closed spec fn capacity(&self) -> usize {
        self.cap
    }

    pub closed spec fn wf(&self) -> bool {
        1 <= self.cap <= TICK_BUFFER_CAP && self.inner@.len() <= self.cap
    }

    /// A buffer never holds more ticks than it keeps, and keeps between 1
    /// and `TICK_BUFFER_CAP`.
    pub proof fn lemma_within_cap(&self)
        requires
            self.wf(),
        ensures
            self.ticks().len() <= self.capacity(),
            1 <= self.capacity() <= TICK_BUFFER_CAP,
    {
    }

    /// An empty buffer keeping `cap` ticks (at least 1, at most `TICK_BUFFER_CAP`).
    pub fn new(cap: usize) -> (r: Self)
        ensures
            r.wf(),
            r.ticks() == Seq::<TransferTick>::empty(),
            r.capacity() == clamp_cap(cap),
    {
        let c = if cap < 1 {
            1
        } else if cap > TICK_BUFFER_CAP {
            TICK_BUFFER_CAP
        } else {
            cap
        };
        TickBuffer { inner: VecDeque::new(), cap: c }
    }

    /// Adds `tick`; when full, the oldest tick leaves first.
    pub fn push(&mut self, tick: TransferTick)
        requires
            old(self).wf(),
        ensures
            final(self).wf(),
            final(self).capacity() == old(self).capacity(),
            final(self).ticks() == if old(self).ticks().len() >= old(self).capacity() {
                old(self).ticks().drop_first().push(tick)
            } else {
                old(self).ticks().push(tick)
            },
    {
        if self.inner.len() >= self.cap {
            self.inner.pop_front();
        }
        self.inner.push_back(tick);
    }

    /// Takes all ticks, oldest first.
    pub fn drain(&mut self) -> (r: Vec<TransferTick>)
        requires
            old(self).wf(),
        ensures
            final(self).wf(),
            final(self).capacity() == old(self).capacity(),
            r@ == old(self).ticks(),
            final(self).ticks() == Seq::<TransferTick>::empty(),
    {
        let mut out: Vec<TransferTick> = Vec::new();
        while self.inner.len() > 0
            invariant
                1 <= self.cap <= TICK_BUFFER_CAP,
                self.cap == old(self).cap,
                out@ + self.inner@ == old(self).inner@,
            decreases self.inner@.len(),
        {
            let ghost before = self.inner@;
            match self.inner.pop_front() {
                Some(t) => {
                    out.push(t);
                    assert(out@ + self.inner@ =~= old(self).inner@);
                },
                None => {},
            }
        }
        assert(out@ =~= old(self).inner@);
        out
    }

    /// How many ticks it holds.
    pub fn len(&self) -> (n: usize)
        ensures
            n == self.ticks().len(),
    {
        self.inner.len()
    }
}

/// The name of a producer state.
pub open spec fn state_name(state: ProducerState) -> Seq<char> {
    match state {
        ProducerState::Idle => "idle"@,
        ProducerState::Ready => "ready"@,
        ProducerState::Busy => "busy"@,
    }
}

/// The name of a producer state as the metrics show it.
pub fn producer_state_str(state: ProducerState) -> (r: &'static str)
    ensures
        r@ == state_name(state),
{
    match state {
        ProducerState::Idle => "idle",
        ProducerState::Ready => "ready",
        ProducerState::Busy => "busy",
    }
}

/// The tick a transfer event records.
pub open spec fn tick_of(
    ts_ms: u64,
    producer_id: u64,
    consumer_id: u64,
    msg_count: u64,
    batch_bytes: u64,
    phase: Seq<char>,
    ok: bool,
    fail_message: Option<String>,
    producer_state: Seq<char>,
    consumer_state: Seq<char>,
    t: TransferTick,
) -> bool {
    &&& t.ts_ms == ts_ms
    &&& t.producer_id == producer_id
    &&& t.consumer_id == consumer_id
    &&& t.msg_count == msg_count
    &&& t.batch_bytes == batch_bytes
    &&& t.phase@ == phase
    &&& t.ok == ok
    &&& t.fail_message == fail_message
    &&& t.producer_state@ == producer_state
    &&& t.consumer_state@ == consumer_state
}

/// What recording a batch outcome does to the metrics (see
/// `Metrics::record_transfer_tick_at`).
pub open spec fn transfer_recorded(
    m0: Metrics,
    m1: Metrics,
    producer_id: u64,
    consumer_id: u64,
    msg_count: u64,
    batch_bytes: u64,
    ok: bool,
    fail_message: Option<String>,
    producer_state: Seq<char>,
    consumer_state: Seq<char>,
    ts_ms: u64,
) -> bool {
    &&& m1.wf()
    &&& m1.ticks.capacity() == m0.ticks.capacity()
    &&& consumer_id == 0 || (ok && msg_count == 0) ==> {
        &&& m1.transfers_total == m0.transfers_total
        &&& m1.transfer_bytes_total == m0.transfer_bytes_total
        &&& m1.batches_total == m0.batches_total
        &&& m1.delivery_failures_total == m0.delivery_failures_total
        &&& m1.requeue_total == m0.requeue_total
        &&& m1.ticks.ticks() == m0.ticks.ticks()
    }
    &&& consumer_id != 0 && !(ok && msg_count == 0) ==> {
        &&& m1.transfers_total == if ok { m0.transfers_total.wrapping_add(msg_count) } else { m0.transfers_total }
        &&& m1.transfer_bytes_total == if ok { m0.transfer_bytes_total.wrapping_add(batch_bytes) } else { m0.transfer_bytes_total }
        &&& m1.batches_total == if ok { m0.batches_total.wrapping_add(1) } else { m0.batches_total }
        &&& m1.delivery_failures_total == if ok { m0.delivery_failures_total } else { m0.delivery_failures_total.wrapping_add(1) }
        &&& m1.requeue_total == if ok { m0.requeue_total } else { m0.requeue_total.wrapping_add(msg_count) }
        &&& m1.ticks.ticks().len() > 0
        &&& tick_of(ts_ms, producer_id, consumer_id, msg_count, batch_bytes, if ok { "deliver"@ } else { "fail"@ },
            ok, fail_message, producer_state, consumer_state, m1.ticks.ticks().last())
    }
}

/// What recording an assignment does to the metrics (see
/// `Metrics::record_assign_tick_at`).
pub open spec fn assign_recorded(
    m0: Metrics,
    m1: Metrics,
    producer_id: u64,
    consumer_id: u64,
    producer_state: Seq<char>,
    consumer_state: Seq<char>,
    ts_ms: u64,
) -> bool {
    &&& m1.wf()
    &&& m1.transfers_total == m0.transfers_total
    &&& m1.transfer_bytes_total == m0.transfer_bytes_total
    &&& m1.batches_total == m0.batches_total
    &&& m1.delivery_failures_total == m0.delivery_failures_total
    &&& m1.requeue_total == m0.requeue_total
    &&& m1.ticks.capacity() == m0.ticks.capacity()
    &&& consumer_id == 0 ==> m1.ticks.ticks() == m0.ticks.ticks()
    &&& consumer_id != 0 ==> m1.ticks.ticks().len() > 0 && tick_of(ts_ms, producer_id, consumer_id, 0, 0, "assign"@,
        true, None, producer_state, consumer_state, m1.ticks.ticks().last())
}

/// Transfer totals and the tick buffer.
pub struct Metrics {
    pub transfers_total: u64,
    pub transfer_bytes_total: u64,
    pub batches_total: u64,
    pub delivery_failures_total: u64,
    pub requeue_total: u64,
    pub ticks: TickBuffer,
}

impl Metrics {
    pub closed spec fn wf(&self) -> bool {
        self.ticks.wf()
    }

    /// Zero totals and an empty buffer of `TICK_BUFFER_CAP` ticks.
    pub fn new() -> (r: Self)
        ensures
            r.wf(),
            r.transfers_total == 0 && r.transfer_bytes_total == 0 && r.batches_total == 0,
            r.delivery_failures_total == 0 && r.requeue_total == 0,
            r.ticks.ticks() == Seq::<TransferTick>::empty(),
            r.ticks.capacity() == TICK_BUFFER_CAP,
    {
        Metrics {
            transfers_total: 0,
            transfer_bytes_total: 0,
            batches_total: 0,
            delivery_failures_total: 0,
            requeue_total: 0,
            ticks: TickBuffer::new(TICK_BUFFER_CAP),
        }
    }

    /// Records a tick at `ts_ms`, unless the consumer id is 0 (none).
    fn push_tick(
        &mut self,
        ts_ms: u64,
        producer_id: u64,
        consumer_id: u64,
        msg_count: u64,
        batch_bytes: u64,
        phase: &str,
        ok: bool,
        fail_message: Option<String>,
        producer_state: &str,
        consumer_state: &str,
    )
        requires
            old(self).wf(),
        ensures
            final(self).wf(),
            final(self).transfers_total == old(self).transfers_total,
            final(self).transfer_bytes_total == old(self).transfer_bytes_total,
            final(self).batches_total == old(self).batches_total,
            final(self).delivery_failures_total == old(self).delivery_failures_total,
            final(self).requeue_total == old(self).requeue_total,
            final(self).ticks.capacity() == old(self).ticks.capacity(),
            consumer_id == 0 ==> final(self).ticks.ticks() == old(self).ticks.ticks(),
            consumer_id != 0 ==> {
                let old_ticks = old(self).ticks.ticks();
                let kept = if old_ticks.len() >= old(self).ticks.capacity() { old_ticks.drop_first() } else { old_ticks };
                &&& final(self).ticks.ticks().drop_last() == kept
                &&& final(self).ticks.ticks().len() == kept.len() + 1
                &&& tick_of(ts_ms, producer_id, consumer_id, msg_count, batch_bytes, phase@, ok, fail_message,
                    producer_state@, consumer_state@, final(self).ticks.ticks().last())
            },
    {
        if consumer_id == 0 {
            return;
        }
        self.ticks.push(TransferTick {
            ts_ms,
            producer_id,
            consumer_id,
            msg_count,
            batch_bytes,
            phase: phase.to_owned(),
            ok,
            fail_message,
            producer_state: producer_state.to_owned(),
            consumer_state: consumer_state.to_owned(),
        });
    }

    /// Records, at `ts_ms`, that producer `producer_id` was assigned to
    /// consumer `consumer_id`.
    pub fn record_assign_tick_at(
        &mut self,
        producer_id: u64,
        consumer_id: u64,
        producer_state: &str,
        consumer_state: &str,
        ts_ms: u64,
    )
        requires
            old(self).wf(),
        ensures
            assign_recorded(*old(self), *final(self), producer_id, consumer_id, producer_state@, consumer_state@, ts_ms),
    {
        self.push_tick(ts_ms, producer_id, consumer_id, 0, 0, "assign", true, None, producer_state, consumer_state);
    }

    /// Records, at `ts_ms`, the outcome of a batch from `producer_id` to
    /// `consumer_id`: a delivery of messages counts a transfer and a batch,
    /// a failure counts a failure and its messages as requeued; each leaves
    /// a tick. Nothing is recorded without a consumer (id 0) or for a
    /// delivery of no messages.
    pub fn record_transfer_tick_at(
        &mut self,
        producer_id: u64,
        consumer_id: u64,
        msg_count: u64,
        batch_bytes: u64,
        ok: bool,
        fail_message: Option<String>,
        producer_state: &str,
        consumer_state: &str,
        ts_ms: u64,
    )
        requires
            old(self).wf(),
        ensures
            final(self).wf(),
            final(self).ticks.capacity() == old(self).ticks.capacity(),
            transfer_recorded(*old(self), *final(self), producer_id, consumer_id, msg_count, batch_bytes, ok,
                fail_message, producer_state@, consumer_state@, ts_ms),
    {
        if consumer_id == 0 {
            return;
        }
        if ok {
            if msg_count == 0 {
                return;
            }
            self.transfers_total = self.transfers_total.wrapping_add(msg_count);
            self.transfer_bytes_total = self.transfer_bytes_total.wrapping_add(batch_bytes);
            self.batches_total = self.batches_total.wrapping_add(1);
        } else {
            self.delivery_failures_total = self.delivery_failures_total.wrapping_add(1);
            self.requeue_total = self.requeue_total.wrapping_add(msg_count);
        }
        let phase = if ok { "deliver" } else { "fail" };
        self.push_tick(ts_ms, producer_id, consumer_id, msg_count, batch_bytes, phase, ok, fail_message, producer_state, consumer_state);
    }

    /// Takes all buffered ticks, oldest first.
    pub fn drain_ticks(&mut self) -> (r: Vec<TransferTick>)
        requires
            old(self).wf(),
        ensures
            final(self).wf(),
            r@ == old(self).ticks.ticks(),
            final(self).ticks.ticks() == Seq::<TransferTick>::empty(),
            final(self).transfers_total == old(self).transfers_total,
            final(self).transfer_bytes_total == old(self).transfer_bytes_total,
            final(self).batches_total == old(self).batches_total,
            final(self).delivery_failures_total == old(self).delivery_failures_total,
            final(self).requeue_total == old(self).requeue_total,
    {
        self.ticks.drain()
    }

    /// How many ticks are buffered.
    pub fn ticks_buffered(&self) -> (n: u64)
        ensures
            n == self.ticks.ticks().len(),
    {
        self.ticks.len() as u64
    }
}

} // verus!
