//! The producer's local side: configuration, the pending → accumulator →
//! ring pipeline, what an assignment drains, and the control-link state.

use crate::accumulator::{seq_bytes, timed_out, BatchAccumulator};
use crate::buf::{bytes_content, bytes_len, contents};
use crate::clock::{elapsed_ms, instant_now, unix_ms};
use crate::protocol::{AssignRequest, DeliveryReport, ProducerHeartbeat};
use crate::ring::{
    drop_count, keep_count, lemma_total_bytes_first, lemma_total_bytes_push, message_views,
    total_bytes, ByteRing, EntryView, QueuedMessage,
};
use bytes::Bytes;
use std::time::Instant;
use vstd::prelude::*;

verus! {


pub const DEFAULT_MAX_BATCH_BYTES: usize = 64 * 1024 * 1024;

pub const DEFAULT_FLUSH_TIMEOUT_MS: u64 = 100;

/// 4 GiB. Held as `u64` since it exceeds a 32-bit `usize`.
pub const DEFAULT_OUTBOUND_MAX_BYTES: u64 = 4 * 1024 * 1024 * 1024;

pub const DEFAULT_RECONNECT_DELAY_SECS: u64 = 2;

pub const DEFAULT_HEARTBEAT_INTERVAL_MS: u64 = 2000;

pub const DEFAULT_DELIVERY_TIMEOUT_SECS: u64 = 8;

pub const DEFAULT_DELIVERY_IDLE_SECS: u64 = 60;

#[derive(Debug, Clone)]
pub struct ProducerConfig {
    pub master: String,
    pub max_batch_bytes: usize,
    pub flush_timeout_ms: u64,
    pub outbound_max_bytes: usize,
    pub reconnect_delay_secs: u64,
    pub delivery_timeout_secs: u64,
    pub delivery_idle_secs: u64,
    pub heartbeat_interval_ms: u64,
}

/// `v`, or 1 when `v` is 0.
pub open spec fn at_least_one(v: int) -> int {
    if v < 1 { 1 } else { v }
}

impl ProducerConfig {
    pub fn new(master: &str) -> (c: Self)
        ensures
            c.master@ == master@,
            c.max_batch_bytes == DEFAULT_MAX_BATCH_BYTES,
            c.flush_timeout_ms == DEFAULT_FLUSH_TIMEOUT_MS,
            c.outbound_max_bytes == DEFAULT_OUTBOUND_MAX_BYTES as usize,
            c.reconnect_delay_secs == DEFAULT_RECONNECT_DELAY_SECS,
            c.delivery_timeout_secs == DEFAULT_DELIVERY_TIMEOUT_SECS,
            c.delivery_idle_secs == DEFAULT_DELIVERY_IDLE_SECS,
            c.heartbeat_interval_ms == DEFAULT_HEARTBEAT_INTERVAL_MS,
    {
        ProducerConfig {
            master: master.to_owned(),
            max_batch_bytes: DEFAULT_MAX_BATCH_BYTES,
            flush_timeout_ms: DEFAULT_FLUSH_TIMEOUT_MS,
            outbound_max_bytes: DEFAULT_OUTBOUND_MAX_BYTES as usize,
            reconnect_delay_secs: DEFAULT_RECONNECT_DELAY_SECS,
            delivery_timeout_secs: DEFAULT_DELIVERY_TIMEOUT_SECS,
            delivery_idle_secs: DEFAULT_DELIVERY_IDLE_SECS,
            heartbeat_interval_ms: DEFAULT_HEARTBEAT_INTERVAL_MS,
        }
    }

    pub fn max_batch_bytes(self, bytes: usize) -> (c: Self)
        ensures
            c == (ProducerConfig { max_batch_bytes: at_least_one(bytes as int) as usize, ..self }),
    {
        ProducerConfig { max_batch_bytes: if bytes < 1 { 1 } else { bytes }, ..self }
    }

    pub fn flush_timeout_ms(self, ms: u64) -> (c: Self)
        ensures
            c == (ProducerConfig { flush_timeout_ms: at_least_one(ms as int) as u64, ..self }),
    {
        ProducerConfig { flush_timeout_ms: if ms < 1 { 1 } else { ms }, ..self }
    }

    pub fn outbound_max_bytes(self, bytes: usize) -> (c: Self)
        ensures
            c == (ProducerConfig { outbound_max_bytes: at_least_one(bytes as int) as usize, ..self }),
    {
        ProducerConfig { outbound_max_bytes: if bytes < 1 { 1 } else { bytes }, ..self }
    }

    pub fn reconnect_delay_secs(self, secs: u64) -> (c: Self)
        ensures
            c == (ProducerConfig { reconnect_delay_secs: at_least_one(secs as int) as u64, ..self }),
    {
        ProducerConfig { reconnect_delay_secs: if secs < 1 { 1 } else { secs }, ..self }
    }

    pub fn delivery_timeout_secs(self, secs: u64) -> (c: Self)
        ensures
            c == (ProducerConfig { delivery_timeout_secs: at_least_one(secs as int) as u64, ..self }),
    {
        ProducerConfig { delivery_timeout_secs: if secs < 1 { 1 } else { secs }, ..self }
    }

    pub fn delivery_idle_secs(self, secs: u64) -> (c: Self)
        ensures
            c == (ProducerConfig { delivery_idle_secs: at_least_one(secs as int) as u64, ..self }),
    {
        ProducerConfig { delivery_idle_secs: if secs < 1 { 1 } else { secs }, ..self }
    }

    pub fn heartbeat_interval_ms(self, ms: u64) -> (c: Self)
        ensures
            c == (ProducerConfig { heartbeat_interval_ms: at_least_one(ms as int) as u64, ..self }),
    {
        ProducerConfig { heartbeat_interval_ms: if ms < 1 { 1 } else { ms }, ..self }
    }
}

/// Counters a producer keeps of its own activity.
#[derive(Debug, Clone, Copy, Default)]
pub struct ProducerStats {
    pub published_items: u64,
    pub published_batches: u64,
    pub published_bytes: u64,
    pub reconnects: u64,
    pub queue_dropped_items: u64,
    pub delivery_errors: u64,
}

/// The state of the producer's control link.
#[derive(Debug, Clone, Copy, PartialEq, Eq, Structural)]
pub enum LinkState {
    Disconnected,
    Idle,
    Ready,
    Busy,
}


// ------------------------------------------------------------ ring pipeline

/// The payloads of ring entries.
pub open spec fn payloads(q: Seq<EntryView>) -> Seq<Seq<u8>> {
    q.map_values(|e: EntryView| e.0)
}

/// A ring's entries after one push of `x` stamped `ms`, with byte cap `cap`.
pub open spec fn ring_push(q: Seq<EntryView>, x: Seq<u8>, ms: u64, cap: nat) -> Seq<EntryView> {
    if x.len() == 0 || x.len() > cap {
        q
    } else {
        q.skip(drop_count(q, x.len(), cap) as int).push((x, ms))
    }
}

/// A ring's entries after pushing each of `xs`, in order.
pub open spec fn ring_push_all(q: Seq<EntryView>, xs: Seq<Seq<u8>>, ms: u64, cap: nat) -> Seq<EntryView>
    decreases xs.len(),
{
    if xs.len() == 0 {
        q
    } else {
        ring_push(ring_push_all(q, xs.drop_last(), ms, cap), xs.last(), ms, cap)
    }
}

pub proof fn lemma_ring_push_all_append(q: Seq<EntryView>, a: Seq<Seq<u8>>, b: Seq<Seq<u8>>, ms: u64, cap: nat)
    ensures
        ring_push_all(q, a + b, ms, cap) == ring_push_all(ring_push_all(q, a, ms, cap), b, ms, cap),
    decreases b.len(),
{
    if b.len() == 0 {
        assert(a + b =~= a);
    } else {
        assert((a + b).drop_last() =~= a + b.drop_last());
        lemma_ring_push_all_append(q, a, b.drop_last(), ms, cap);
    }
}

/// What a push of `x` into an accumulator holding `p` emits, flattened in
/// order, and what it then holds (limit `limit`).
pub open spec fn acc_push(p: Seq<Seq<u8>>, x: Seq<u8>, limit: nat) -> (Seq<Seq<u8>>, Seq<Seq<u8>>) {
    if x.len() > limit {
        (p.push(x), Seq::empty())
    } else if seq_bytes(p) + x.len() > limit {
        (p, seq![x])
    } else {
        (Seq::empty(), p.push(x))
    }
}

/// What pushing each of `xs` into an accumulator holding `p` emits, and what
/// it then holds.
pub open spec fn acc_feed(p: Seq<Seq<u8>>, xs: Seq<Seq<u8>>, limit: nat) -> (Seq<Seq<u8>>, Seq<Seq<u8>>)
    decreases xs.len(),
{
    if xs.len() == 0 {
        (Seq::empty(), p)
    } else {
        let (e1, p1) = acc_feed(p, xs.drop_last(), limit);
        let (e2, p2) = acc_push(p1, xs.last(), limit);
        (e1 + e2, p2)
    }
}

/// Nothing is lost or reordered by an accumulator: what it emits followed by
/// what it holds is what it held followed by what was pushed.
pub proof fn lemma_acc_feed_conserves(p: Seq<Seq<u8>>, xs: Seq<Seq<u8>>, limit: nat)
    ensures
        acc_feed(p, xs, limit).0 + acc_feed(p, xs, limit).1 == p + xs,
    decreases xs.len(),
{
    if xs.len() > 0 {
        lemma_acc_feed_conserves(p, xs.drop_last(), limit);
        let (e1, p1) = acc_feed(p, xs.drop_last(), limit);
        let x = xs.last();
        assert(xs.drop_last().push(x) =~= xs);
        assert((p + xs.drop_last()).push(x) =~= p + xs);
        assert(e1 + p1.push(x) =~= (e1 + p1).push(x));
        if x.len() > limit {
            assert(e1 + p1.push(x) + Seq::<Seq<u8>>::empty() =~= p + xs);
        } else if seq_bytes(p1) + x.len() > limit {
            assert(e1 + p1 + seq![x] =~= p + xs);
        } else {
            assert(e1 + Seq::<Seq<u8>>::empty() + p1.push(x) =~= p + xs);
        }
    }
}

/// Pushes each item of `batch` into `ring`, in order, stamped `now_ms`.
pub fn push_batch_to_ring(ring: &mut ByteRing, batch: &Vec<Bytes>, now_ms: u64)
    requires
        old(ring).wf(),
        old(ring).room(batch@.len() as nat),
    ensures
        final(ring).wf(),
        final(ring).cap() == old(ring).cap(),
        final(ring)@ == ring_push_all(old(ring)@, contents(batch@), now_ms, old(ring).cap()),
        final(ring).drops() + final(ring)@.len() <= old(ring).drops() + old(ring)@.len() + batch@.len(),
        final(ring)@.len() <= old(ring)@.len() + batch@.len(),
{
    let ghost xs = contents(batch@);
    let mut i: usize = 0;
    while i < batch.len()
        invariant
            xs == contents(batch@),
            i <= batch@.len(),
            ring.wf(),
            ring.cap() == old(ring).cap(),
            ring@ == ring_push_all(old(ring)@, xs.take(i as int), now_ms, old(ring).cap()),
            ring.drops() + ring@.len() <= old(ring).drops() + old(ring)@.len() + i,
            ring@.len() <= old(ring)@.len() + i,
            old(ring).room(batch@.len() as nat),
        decreases batch@.len() - i,
    {
        let item = batch[i].clone();
        ring.push(item, now_ms);
        proof {
            assert(xs.take(i + 1).drop_last() =~= xs.take(i as int));
            assert(xs.take(i + 1).last() == xs[i as int]);
        }
        i = i + 1;
    }
    assert(xs.take(batch@.len() as int) =~= xs);
}

// ------------------------------------------------------------- requeueing

/// A ring's entries after `m` is put back at its head (cap `cap`): the newest
/// entries are dropped while it is over the cap.
pub open spec fn ring_push_front(q: Seq<EntryView>, m: EntryView, cap: nat) -> Seq<EntryView> {
    (seq![m] + q).take(keep_count(seq![m] + q, cap) as int)
}

/// A ring's entries after `ms` is put back at its head, last message first.
pub open spec fn ring_requeue(q: Seq<EntryView>, ms: Seq<EntryView>, cap: nat) -> Seq<EntryView>
    decreases ms.len(),
{
    if ms.len() == 0 {
        q
    } else {
        ring_requeue(ring_push_front(q, ms.last(), cap), ms.drop_last(), cap)
    }
}

pub proof fn lemma_total_bytes_concat(a: Seq<EntryView>, b: Seq<EntryView>)
    ensures
        total_bytes(a + b) == total_bytes(a) + total_bytes(b),
    decreases b.len(),
{
    if b.len() == 0 {
        assert(a + b =~= a);
    } else {
        assert((a + b).drop_last() =~= a + b.drop_last());
        lemma_total_bytes_concat(a, b.drop_last());
    }
}

/// Requeueing what fits within the cap puts it back unchanged, in order, ahead
/// of what the ring holds.
pub proof fn lemma_requeue_fits(q: Seq<EntryView>, ms: Seq<EntryView>, cap: nat)
    requires
        total_bytes(ms) + total_bytes(q) <= cap,
    ensures
        ring_requeue(q, ms, cap) == ms + q,
    decreases ms.len(),
{
    if ms.len() > 0 {
        let m = ms.last();
        let q1 = seq![m] + q;
        lemma_total_bytes_concat(seq![m], q);
        lemma_total_bytes_push(Seq::empty(), m);
        assert(seq![m] =~= Seq::<EntryView>::empty().push(m));
        lemma_total_bytes_push(ms.drop_last(), m);
        assert(ms.drop_last().push(m) =~= ms);
        assert(keep_count(q1, cap) == q1.len());
        assert(q1.take(q1.len() as int) =~= q1);
        lemma_requeue_fits(q1, ms.drop_last(), cap);
        assert(ms.drop_last() + q1 =~= ms + q);
    }
}

/// Puts `items` back at the head of `ring`, last one first, so that they come
/// out again in their order.
pub fn requeue_into(ring: &mut ByteRing, items: Vec<QueuedMessage>)
    requires
        old(ring).wf(),
        old(ring).room(items@.len() as nat),
        total_bytes(message_views(items@)) + total_bytes(old(ring)@) <= usize::MAX,
    ensures
        final(ring).wf(),
        final(ring).cap() == old(ring).cap(),
        final(ring)@ == ring_requeue(old(ring)@, message_views(items@), old(ring).cap()),
        final(ring).drops() + final(ring)@.len() == old(ring).drops() + old(ring)@.len() + items@.len(),
{
    let ghost all = message_views(items@);
    let mut rest = items;
    while rest.len() > 0
        invariant
            ring.wf(),
            ring.cap() == old(ring).cap(),
            ring_requeue(ring@, message_views(rest@), ring.cap()) == ring_requeue(old(ring)@, all, ring.cap()),
            total_bytes(message_views(rest@)) + total_bytes(ring@) <= usize::MAX,
            ring.drops() + ring@.len() + rest@.len() == old(ring).drops() + old(ring)@.len() + all.len(),
            old(ring).room(all.len() as nat),
            ring@.len() + rest@.len() <= old(ring)@.len() + all.len(),
        decreases rest@.len(),
    {
        let ghost before = rest@;
        let msg = rest.pop().unwrap();
        proof {
            assert(message_views(before).drop_last() =~= message_views(rest@));
            assert(message_views(before).last() == msg@);
            lemma_total_bytes_push(message_views(rest@), msg@);
            assert(message_views(rest@).push(msg@) =~= message_views(before));
        }
        let ghost q = ring@;
        proof {
            lemma_total_bytes_concat(seq![msg@], q);
            lemma_total_bytes_push(Seq::empty(), msg@);
            assert(seq![msg@] =~= Seq::<EntryView>::empty().push(msg@));
        }
        ring.push_front(msg);
        proof {
            let q1 = seq![msg@] + q;
            lemma_total_take_le(q1, keep_count(q1, ring.cap()) as int);
        }
    }
    assert(message_views(rest@) =~= Seq::<EntryView>::empty());
}

pub proof fn lemma_total_take_le(q: Seq<EntryView>, k: int)
    requires
        0 <= k <= q.len(),
    ensures
        total_bytes(q.take(k)) <= total_bytes(q),
    decreases q.len() - k,
{
    if k < q.len() {
        lemma_total_take_le(q, k + 1);
        assert(q.take(k + 1).drop_last() =~= q.take(k));
    } else {
        assert(q.take(k) =~= q);
    }
}


/// Takes what an assignment delivers: at most `max_items` of the oldest
/// entries, cut before the first entry (after the first one) that would take
/// the batch over `max_batch_bytes`; the rest stays at the head of the ring.
pub fn drain_for_assign(ring: &mut ByteRing, max_items: usize, max_batch_bytes: usize) -> (out: Vec<QueuedMessage>)
    requires
        old(ring).wf(),
        old(ring).room(0),
    ensures
        final(ring).wf(),
        final(ring).cap() == old(ring).cap(),
        final(ring).drops() == old(ring).drops(),
        ({
            let q = old(ring)@;
            let k = if max_items < q.len() { max_items as int } else { q.len() as int };
            let n = out@.len() as int;
            &&& message_views(out@) == q.take(n)
            &&& final(ring)@ == q.skip(n)
            &&& (k == 0 ==> n == 0)
            &&& (k > 0 ==> 1 <= n <= k)
            &&& (n >= 2 ==> total_bytes(q.take(n)) <= max_batch_bytes)
            &&& (n < k ==> total_bytes(q.take(n + 1)) > max_batch_bytes)
        }),
{
    let ghost q = ring@;
    let ghost cap = ring.cap();
    let _total_before = ring.byte_len();
    let mut out = ring.pop_up_to(max_items, 0);
    let ghost k = out@.len() as int;
    assert(message_views(out@).len() == out@.len());
    assert(k == if max_items < q.len() { max_items as int } else { q.len() as int });
    if out.len() == 0 {
        return out;
    }
    proof {
        lemma_total_take_le(q, k);
    }
    let mut total: usize = 0;
    let mut keep = out.len();
    let mut cut = false;
    let mut i: usize = 0;
    while i < out.len() && !cut
        invariant
            message_views(out@) == q.take(k),
            out@.len() == k,
            1 <= k <= q.len(),
            total_bytes(q) <= usize::MAX,
            i <= k,
            !cut ==> keep == k && total == total_bytes(q.take(i as int)) && (i >= 2 ==> total <= max_batch_bytes),
            cut ==> 1 <= keep < k && total_bytes(q.take(keep + 1)) > max_batch_bytes && (keep >= 2 ==> total_bytes(q.take(keep as int)) <= max_batch_bytes),
        decreases k - i + (if cut { 0int } else { 1int }),
    {
        let len = bytes_len(&out[i].payload);
        proof {
            assert(message_views(out@)[i as int] == q[i as int]);
            assert(q.take(i + 1).drop_last() =~= q.take(i as int));
            lemma_total_take_le(q, i + 1);
        }
        if total + len > max_batch_bytes && i > 0 {
            keep = i;
            cut = true;
        } else {
            total = total + len;
            i = i + 1;
        }
    }
    if keep < out.len() {
        let ghost before = out@;
        let rest = out.split_off(keep);
        proof {
            assert(message_views(out@) =~= q.take(keep as int));
            assert(message_views(rest@) =~= q.take(k).skip(keep as int));
            assert(q.take(k).skip(keep as int) + q.skip(k) =~= q.skip(keep as int));
            lemma_total_bytes_concat(q.take(keep as int), q.skip(keep as int));
            assert(q.take(keep as int) + q.skip(keep as int) =~= q);
            lemma_total_bytes_concat(q.take(k).skip(keep as int), q.skip(k));
            lemma_requeue_fits(q.skip(k), message_views(rest@), cap);
        }
        requeue_into(ring, rest);
    }
    out
}


// ----------------------------------------------------------- producer side

/// A producer's local state: ingress (`pending`), the batching accumulator,
/// the ring that assignments drain, and the control link.
/// One pass of the batching task from `s0` to `s1` at `now_ms`, with the open
/// batch having been open for `elapsed_ms`: every ingress payload goes
/// through the accumulator (the batches it closes go to the ring, stamped
/// `now_ms`), then the open batch also goes to the ring when `elapsed_ms`
/// reaches the flush timeout. `gained` is whether the ring received anything.
pub open spec fn accumulated(s0: ProducerLocal, s1: ProducerLocal, gained: bool, now_ms: u64, elapsed_ms: u64) -> bool {
    let fed = acc_feed(s0.accumulator.pending(), payloads(s0.pending@), s0.accumulator.limit());
    let flush = fed.1.len() > 0 && elapsed_ms >= s0.accumulator.timeout_ms();
    &&& s1.pending@.len() == 0
    &&& s1.accumulator.pending() =~= (if flush { Seq::empty() } else { fed.1 })
    &&& s1.ring@ == ring_push_all(s0.ring@, if flush { fed.0 + fed.1 } else { fed.0 }, now_ms, s0.ring.cap())
    &&& gained == (fed.0.len() > 0 || flush)
}

pub struct ProducerLocal {
    pub config: ProducerConfig,
    /// Ingress — `publish` enqueues here.
    pub pending: ByteRing,
    /// Drained by assignments; filled only by accumulator flushes.
    pub ring: ByteRing,
    pub accumulator: BatchAccumulator,
    pub link_state: LinkState,
    pub connected: bool,
    pub last_connect_fail: Option<Instant>,
}

impl ProducerLocal {
    /// The invariant of the parts: each ring and the accumulator keep theirs.
    pub open spec fn wf(&self) -> bool {
        &&& self.pending.wf()
        &&& self.ring.wf()
        &&& self.accumulator.wf()
    }

    /// Whether a reconnect wait is running (a failure time is recorded).
    pub open spec fn has_failure_time(&self) -> bool {
        self.last_connect_fail is Some
    }

    /// The state a producer starts in: both rings capped at
    /// `outbound_max_bytes`, batches of `max_batch_bytes`, link disconnected.
    pub fn new(config: ProducerConfig) -> (p: Self)
        ensures
            p.wf(),
            p.config == config,
            p.pending@.len() == 0 && p.ring@.len() == 0,
            p.pending.drops() == 0 && p.ring.drops() == 0,
            p.pending.cap() == at_least_one(config.outbound_max_bytes as int),
            p.ring.cap() == at_least_one(config.outbound_max_bytes as int),
            p.accumulator.pending().len() == 0,
            p.accumulator.limit() == at_least_one(config.max_batch_bytes as int),
            p.accumulator.timeout_ms() == config.flush_timeout_ms,
            p.link_state == LinkState::Disconnected,
            !p.connected,
            !p.has_failure_time(),
    {
        let max_bytes = config.outbound_max_bytes;
        let accumulator = BatchAccumulator::new(config.max_batch_bytes, config.flush_timeout_ms);
        ProducerLocal {
            pending: ByteRing::new(max_bytes),
            ring: ByteRing::new(max_bytes),
            accumulator,
            config,
            link_state: LinkState::Disconnected,
            connected: false,
            last_connect_fail: None,
        }
    }

    /// Enqueues a payload on the ingress ring, stamped `now_ms`.
    pub fn publish_at(&mut self, payload: Bytes, now_ms: u64) -> (r: crate::ring::PushResult)
        requires
            old(self).wf(),
            old(self).pending.room(1),
        ensures
            final(self).wf(),
            final(self).pending@ == ring_push(old(self).pending@, bytes_content(payload), now_ms, old(self).pending.cap()),
            final(self).pending.cap() == old(self).pending.cap(),
            final(self).ring == old(self).ring,
            final(self).accumulator == old(self).accumulator,
            final(self).config == old(self).config,
            final(self).link_state == old(self).link_state,
            final(self).connected == old(self).connected,
    {
        self.pending.push(payload, now_ms)
    }

    /// Enqueues a payload on the ingress ring, stamped with the current time.
    pub fn publish(&mut self, payload: Bytes) -> (r: crate::ring::PushResult)
        requires
            old(self).wf(),
            old(self).pending.room(1),
        ensures
            final(self).wf(),
            exists|ms: u64| final(self).pending@ == ring_push(old(self).pending@, bytes_content(payload), ms, old(self).pending.cap()),
            final(self).ring == old(self).ring,
    {
        let now = unix_ms();
        self.publish_at(payload, now)
    }

    /// Drops of both rings: what the producer reports as dropped items.
    /// Whether the ring has room for everything ingress and the open batch
    /// hold, as the batching and assignment steps require.
    pub fn can_flush(&self) -> (r: bool)
        ensures
            r == self.ring.room(self.accumulator.pending().len() + self.pending@.len()),
    {
        let a = self.accumulator.pending_items();
        let p = self.pending.len();
        if a > usize::MAX - p {
            proof {
                assert(self.ring@.len() + self.accumulator.pending().len() + self.pending@.len() >= u32::MAX);
            }
            return false;
        }
        self.ring.has_room(a + p)
    }

    /// Whether both rings' drop counts add up within `u64`.
    pub fn drops_fit(&self) -> (r: bool)
        ensures
            r == (self.pending.drops() + self.ring.drops() <= u64::MAX),
    {
        self.pending.total_drops() <= u64::MAX - self.ring.total_drops()
    }

    pub fn drops_total(&self) -> (n: u64)
        requires
            self.pending.drops() + self.ring.drops() <= u64::MAX,
        ensures
            n == self.pending.drops() + self.ring.drops(),
    {
        self.pending.total_drops() + self.ring.total_drops()
    }

    /// Moves all of ingress through the accumulator, pushing what it emits
    /// into the ring stamped `now_ms`. Returns whether anything reached the ring.
    pub fn feed_ingress_at(&mut self, now_ms: u64) -> (gained: bool)
        requires
            old(self).wf(),
            old(self).ring.room(old(self).accumulator.pending().len() + old(self).pending@.len()),
        ensures
            final(self).wf(),
            ({
                let fed = acc_feed(old(self).accumulator.pending(), payloads(old(self).pending@), old(self).accumulator.limit());
                &&& final(self).pending@.len() == 0
                &&& final(self).accumulator.pending() == fed.1
                &&& final(self).ring@ == ring_push_all(old(self).ring@, fed.0, now_ms, old(self).ring.cap())
                &&& gained == (fed.0.len() > 0)
                &&& final(self).ring.room(fed.1.len())
            }),
            final(self).ring.cap() == old(self).ring.cap(),
            final(self).pending.cap() == old(self).pending.cap(),
            final(self).pending.drops() == old(self).pending.drops(),
            final(self).accumulator.limit() == old(self).accumulator.limit(),
            final(self).accumulator.timeout_ms() == old(self).accumulator.timeout_ms(),
            final(self).config == old(self).config,
            final(self).link_state == old(self).link_state,
            final(self).connected == old(self).connected,
    {
        let ghost p0 = self.accumulator.pending();
        let ghost xs = payloads(self.pending@);
        let ghost r0 = self.ring@;
        let ghost cap = self.ring.cap();
        let ghost limit = self.accumulator.limit();
        let mut gained = false;
        proof {
            lemma_acc_feed_conserves(p0, Seq::empty(), limit);
        }
        while self.pending.len() > 0
            invariant
                self.wf(),
                self.ring.cap() == cap,
                self.accumulator.limit() == limit,
                self.pending.cap() == old(self).pending.cap(),
                self.pending.drops() == old(self).pending.drops(),
                self.accumulator.timeout_ms() == old(self).accumulator.timeout_ms(),
                self.config == old(self).config,
                self.link_state == old(self).link_state,
                self.connected == old(self).connected,
                xs.len() == old(self).pending@.len(),
                self.pending@.len() <= xs.len(),
                payloads(self.pending@) == xs.skip(xs.len() - self.pending@.len()),
                acc_feed(p0, xs.take(xs.len() - self.pending@.len()), limit).1 == self.accumulator.pending(),
                self.ring@ == ring_push_all(r0, acc_feed(p0, xs.take(xs.len() - self.pending@.len()), limit).0, now_ms, cap),
                self.ring.room((self.accumulator.pending().len() + self.pending@.len()) as nat),
                gained == (acc_feed(p0, xs.take(xs.len() - self.pending@.len()), limit).0.len() > 0),
            decreases self.pending@.len(),
        {
            let ghost done = (xs.len() - self.pending@.len()) as int;
            let ghost pend = self.pending@;
            let _pending_total = self.pending.byte_len();
            let _held = self.accumulator.pending_bytes();
            proof {
                lemma_total_bytes_first(pend);
            }
            let msg = self.pending.pop_front().unwrap();
            proof {
                assert(payloads(pend)[0] == xs[done]);
                assert(payloads(pend.drop_first()) =~= payloads(pend).drop_first());
                assert(xs.skip(done).drop_first() =~= xs.skip(done + 1));
                assert(payloads(self.pending@) =~= xs.skip(done + 1));
                assert(xs.take(done + 1).drop_last() =~= xs.take(done));
                assert(xs.take(done + 1).last() == xs[done]);
            }
            let ghost acc_before = self.accumulator.pending();
            let ghost ring_before = self.ring@;
            let ghost x = xs[done];
            let batches = self.accumulator.push(msg.payload);
            let ghost outs = batches@.map_values(|b: Vec<Bytes>| contents(b@));
            proof {
                lemma_flatten_acc_push(acc_before, x, limit, outs);
                lemma_acc_push_conserves(acc_before, x, limit);
            }
            if batches.len() > 0 {
                gained = true;
            }
            let ghost acc_after = self.accumulator;
            let ghost pend_after = self.pending;
            let ghost config_now = self.config;
            let ghost link_now = self.link_state;
            let ghost connected_now = self.connected;
            let mut j: usize = 0;
            while j < batches.len()
                invariant
                    self.accumulator == acc_after,
                    self.pending == pend_after,
                    self.config == config_now,
                    self.link_state == link_now,
                    self.connected == connected_now,
                    outs == batches@.map_values(|b: Vec<Bytes>| contents(b@)),
                    j <= batches@.len(),
                    self.ring.wf(),
                    self.ring.cap() == cap,
                    self.ring@ == ring_push_all(ring_before, flatten(outs.take(j as int)), now_ms, cap),
                    self.ring.room((flatten(outs).len() - flatten(outs.take(j as int)).len() + self.accumulator.pending().len() + self.pending@.len()) as nat),
                    flatten(outs.take(j as int)).len() <= flatten(outs).len(),
                decreases batches@.len() - j,
            {
                proof {
                    assert(outs.take(j + 1).drop_last() =~= outs.take(j as int));
                    assert(outs.take(j + 1).last() == contents(batches@[j as int]@));
                    lemma_flatten_take_le(outs, j + 1);
                    lemma_ring_push_all_append(ring_before, flatten(outs.take(j as int)), outs[j as int], now_ms, cap);
                }
                push_batch_to_ring(&mut self.ring, &batches[j], now_ms);
                j = j + 1;
            }
            proof {
                assert(outs.take(batches@.len() as int) =~= outs);
                let prev = acc_feed(p0, xs.take(done), limit);
                lemma_ring_push_all_append(r0, prev.0, flatten(outs), now_ms, cap);
            }
        }
        proof {
            assert(xs.take(xs.len() as int) =~= xs);
        }
        gained
    }

    /// Moves all of ingress through the accumulator and then everything it
    /// holds into the ring, so that an assignment can drain it: the ring
    /// receives what the accumulator held and then the ingress payloads, in
    /// order, stamped `now_ms`.
    pub fn flush_ingress_to_ring_at(&mut self, now_ms: u64)
        requires
            old(self).wf(),
            old(self).ring.room(old(self).accumulator.pending().len() + old(self).pending@.len()),
        ensures
            final(self).wf(),
            final(self).pending@.len() == 0,
            final(self).accumulator.pending().len() == 0,
            final(self).ring@ == ring_push_all(old(self).ring@, old(self).accumulator.pending() + payloads(old(self).pending@), now_ms, old(self).ring.cap()),
            final(self).ring.room(0),
            final(self).ring.cap() == old(self).ring.cap(),
            final(self).pending.cap() == old(self).pending.cap(),
            final(self).pending.drops() == old(self).pending.drops(),
            final(self).accumulator.limit() == old(self).accumulator.limit(),
            final(self).accumulator.timeout_ms() == old(self).accumulator.timeout_ms(),
            final(self).config == old(self).config,
            final(self).link_state == old(self).link_state,
            final(self).connected == old(self).connected,
    {
        let ghost p0 = self.accumulator.pending();
        let ghost xs = payloads(self.pending@);
        let ghost r0 = self.ring@;
        let ghost cap = self.ring.cap();
        let ghost limit = self.accumulator.limit();
        let _ = self.feed_ingress_at(now_ms);
        let ghost held = self.accumulator.pending();
        proof {
            lemma_acc_feed_conserves(p0, xs, limit);
        }
        if let Some(batch) = self.accumulator.take_batch() {
            push_batch_to_ring(&mut self.ring, &batch, now_ms);
            proof {
                lemma_ring_push_all_append(r0, acc_feed(p0, xs, limit).0, held, now_ms, cap);
            }
        } else {
            proof {
                assert(acc_feed(p0, xs, limit).0 + held =~= acc_feed(p0, xs, limit).0);
            }
        }
    }

    /// `flush_ingress_to_ring_at` at the current time.
    pub fn flush_ingress_to_ring(&mut self)
        requires
            old(self).wf(),
            old(self).ring.room(old(self).accumulator.pending().len() + old(self).pending@.len()),
        ensures
            final(self).wf(),
            final(self).pending@.len() == 0,
            final(self).accumulator.pending().len() == 0,
            exists|ms: u64| final(self).ring@ == ring_push_all(old(self).ring@, old(self).accumulator.pending() + payloads(old(self).pending@), ms, old(self).ring.cap()),
            final(self).ring.cap() == old(self).ring.cap(),
            final(self).config == old(self).config,
            final(self).link_state == old(self).link_state,
            final(self).connected == old(self).connected,
    {
        let now = unix_ms();
        self.flush_ingress_to_ring_at(now);
    }

    /// One pass of the batching task at `now_ms`: ingress goes through the
    /// accumulator, and the open batch goes to the ring when `elapsed_ms`
    /// (how long it has been open) reaches the flush timeout. Returns whether
    /// the ring received anything.
    pub fn accumulate_at(&mut self, now_ms: u64, elapsed_ms: u64) -> (gained: bool)
        requires
            old(self).wf(),
            old(self).ring.room(old(self).accumulator.pending().len() + old(self).pending@.len()),
        ensures
            final(self).wf(),
            accumulated(*old(self), *final(self), gained, now_ms, elapsed_ms),
            final(self).ring.cap() == old(self).ring.cap(),
            final(self).config == old(self).config,
            final(self).link_state == old(self).link_state,
            final(self).connected == old(self).connected,
    {
        let ghost p0 = self.accumulator.pending();
        let ghost xs = payloads(self.pending@);
        let ghost r0 = self.ring@;
        let ghost cap = self.ring.cap();
        let ghost limit = self.accumulator.limit();
        let mut gained = self.feed_ingress_at(now_ms);
        let ghost held = self.accumulator.pending();
        if let Some(batch) = self.accumulator.flush_if_elapsed(elapsed_ms) {
            push_batch_to_ring(&mut self.ring, &batch, now_ms);
            proof {
                lemma_ring_push_all_append(r0, acc_feed(p0, xs, limit).0, held, now_ms, cap);
            }
            gained = true;
        }
        gained
    }
}

impl ProducerLocal {
    /// One pass of the batching task at the current time: ingress goes
    /// through the accumulator, and the open batch goes to the ring once it
    /// has been open for the flush timeout. Returns whether the ring received
    /// anything.
    pub fn accumulate(&mut self) -> (gained: bool)
        requires
            old(self).wf(),
            old(self).ring.room(old(self).accumulator.pending().len() + old(self).pending@.len()),
        ensures
            final(self).wf(),
            exists|now_ms: u64, elapsed_ms: u64| #[trigger] accumulated(*old(self), *final(self), gained, now_ms, elapsed_ms),
            final(self).ring.cap() == old(self).ring.cap(),
            final(self).config == old(self).config,
            final(self).link_state == old(self).link_state,
            final(self).connected == old(self).connected,
    {
        let ghost s0 = *self;
        let ghost p0 = self.accumulator.pending();
        let ghost xs = payloads(self.pending@);
        let ghost r0 = self.ring@;
        let ghost cap = self.ring.cap();
        let ghost limit = self.accumulator.limit();
        let ghost timeout = self.accumulator.timeout_ms();
        let now = unix_ms();
        let mut gained = self.feed_ingress_at(now);
        let ghost held = self.accumulator.pending();
        let flushed = self.accumulator.flush_if_timeout();
        let ghost elapsed: u64 = if held.len() > 0 {
            choose|ms: u64| #[trigger] timed_out(ms, timeout) == (flushed is Some)
        } else {
            0
        };
        if let Some(batch) = flushed {
            push_batch_to_ring(&mut self.ring, &batch, now);
            proof {
                lemma_ring_push_all_append(r0, acc_feed(p0, xs, limit).0, held, now, cap);
            }
            gained = true;
        }
        proof {
            assert(accumulated(s0, *self, gained, now, elapsed));
        }
        gained
    }

    /// The backlog a heartbeat reports: both rings' lengths and bytes (kept
    /// to their low 32 bits) and their drops.
    pub fn collect_heartbeat(&self) -> (hb: ProducerHeartbeat)
        requires
            self.wf(),
            self.pending.drops() + self.ring.drops() <= u64::MAX,
        ensures
            hb.pending_messages == self.pending@.len() as u32,
            hb.pending_bytes == total_bytes(self.pending@) as u32,
            hb.ring_messages == self.ring@.len() as u32,
            hb.ring_bytes == total_bytes(self.ring@) as u32,
            hb.drops_total == self.pending.drops() + self.ring.drops(),
    {
        ProducerHeartbeat {
            pending_messages: self.pending.len() as u32,
            pending_bytes: self.pending.byte_len() as u32,
            ring_messages: self.ring.len() as u32,
            ring_bytes: self.ring.byte_len() as u32,
            drops_total: self.drops_total(),
        }
    }

    /// Whether to announce PRDY now: the ring holds items, the link is idle
    /// and connected. When so, the link becomes `Ready`.
    pub fn begin_ready(&mut self) -> (send: bool)
        ensures
            send == (old(self).ring@.len() > 0 && old(self).link_state == LinkState::Idle && old(self).connected),
            final(self).link_state == (if send { LinkState::Ready } else { old(self).link_state }),
            final(self).ring == old(self).ring,
            final(self).pending == old(self).pending,
            final(self).accumulator == old(self).accumulator,
            final(self).config == old(self).config,
            final(self).connected == old(self).connected,
            final(self).last_connect_fail == old(self).last_connect_fail,
    {
        let send = !self.ring.is_empty() && self.link_state == LinkState::Idle && self.connected;
        if send {
            self.link_state = LinkState::Ready;
        }
        send
    }

    /// The link is handling an assignment.
    pub fn begin_assign(&mut self)
        ensures
            *final(self) == (ProducerLocal { link_state: LinkState::Busy, ..*old(self) }),
    {
        self.link_state = LinkState::Busy;
    }

    /// The assignment is reported; the link is idle again.
    pub fn end_assign(&mut self)
        ensures
            *final(self) == (ProducerLocal { link_state: LinkState::Idle, ..*old(self) }),
    {
        self.link_state = LinkState::Idle;
    }

    /// The control connection was established.
    pub fn on_connected(&mut self)
        ensures
            *final(self) == (ProducerLocal { connected: true, link_state: LinkState::Idle, last_connect_fail: None, ..*old(self) }),
    {
        self.connected = true;
        self.link_state = LinkState::Idle;
        self.last_connect_fail = None;
    }

    /// The control connection was lost: disconnected, and the reconnect wait
    /// starts now.
    pub fn mark_disconnected(&mut self)
        ensures
            !final(self).connected,
            final(self).link_state == LinkState::Disconnected,
            final(self).has_failure_time(),
            final(self).ring == old(self).ring,
            final(self).pending == old(self).pending,
            final(self).accumulator == old(self).accumulator,
            final(self).config == old(self).config,
    {
        self.connected = false;
        self.link_state = LinkState::Disconnected;
        self.last_connect_fail = Some(instant_now());
    }

    /// A connection attempt failed: the reconnect wait starts now.
    pub fn on_connect_failed(&mut self)
        ensures
            final(self).has_failure_time(),
            final(self).connected == old(self).connected,
            final(self).link_state == old(self).link_state,
            final(self).ring == old(self).ring,
            final(self).pending == old(self).pending,
            final(self).accumulator == old(self).accumulator,
            final(self).config == old(self).config,
    {
        self.last_connect_fail = Some(instant_now());
    }

    /// Whether a connection may be attempted now: when connected, when no
    /// failure is recorded, or when the reconnect delay has passed since it.
    pub fn may_try_connect(&self) -> (r: bool)
        ensures
            self.connected ==> r,
            (!self.connected && !self.has_failure_time()) ==> r,
            (!self.connected && self.has_failure_time()) ==> exists|ms: u64| #[trigger] reconnect_due(ms, self.config.reconnect_delay_secs) == r,
            (!self.connected && self.config.reconnect_delay_secs == 0) ==> r,
    {
        let since = match &self.last_connect_fail {
            Some(t) => Some(elapsed_ms(t)),
            None => None,
        };
        let r = may_try_connect_after(self.connected, since, self.config.reconnect_delay_secs);
        proof {
            if let Some(ms) = since {
                assert(reconnect_due(ms, self.config.reconnect_delay_secs) == r || self.connected);
            }
        }
        r
    }

    /// Fills the ring from ingress at `now_ms`, then takes what the
    /// assignment delivers: at most `max(max_items, 1)` items within the
    /// configured batch bytes.
    pub fn take_for_assign_at(&mut self, assign: &AssignRequest, now_ms: u64) -> (items: Vec<QueuedMessage>)
        requires
            old(self).wf(),
            old(self).ring.room(old(self).accumulator.pending().len() + old(self).pending@.len()),
        ensures
            final(self).wf(),
            final(self).pending@.len() == 0,
            final(self).accumulator.pending().len() == 0,
            ({
                let q = ring_push_all(old(self).ring@, old(self).accumulator.pending() + payloads(old(self).pending@), now_ms, old(self).ring.cap());
                let max_items = if assign.max_items < 1 { 1 } else { assign.max_items as int };
                let k = if max_items < q.len() { max_items } else { q.len() as int };
                let n = items@.len() as int;
                &&& message_views(items@) == q.take(n)
                &&& final(self).ring@ == q.skip(n)
                &&& (k == 0 ==> n == 0)
                &&& (k > 0 ==> 1 <= n <= k)
                &&& (n >= 2 ==> total_bytes(q.take(n)) <= old(self).config.max_batch_bytes)
                &&& (n < k ==> total_bytes(q.take(n + 1)) > old(self).config.max_batch_bytes)
            }),
            final(self).config == old(self).config,
            final(self).link_state == old(self).link_state,
            final(self).connected == old(self).connected,
    {
        self.flush_ingress_to_ring_at(now_ms);
        let max_items: usize = if assign.max_items < 1 { 1 } else { assign.max_items as usize };
        drain_for_assign(&mut self.ring, max_items, self.config.max_batch_bytes)
    }

    /// Puts undelivered items back at the head of the ring, in their order.
    pub fn requeue_items(&mut self, items: Vec<QueuedMessage>)
        requires
            old(self).wf(),
            old(self).ring.room(items@.len() as nat),
            total_bytes(message_views(items@)) + total_bytes(old(self).ring@) <= usize::MAX,
        ensures
            final(self).wf(),
            final(self).ring@ == ring_requeue(old(self).ring@, message_views(items@), old(self).ring.cap()),
            final(self).pending == old(self).pending,
            final(self).accumulator == old(self).accumulator,
            final(self).config == old(self).config,
            final(self).link_state == old(self).link_state,
            final(self).connected == old(self).connected,
    {
        requeue_into(&mut self.ring, items);
    }
}

/// Whether `since_fail_ms` milliseconds since a failed connection reach a
/// reconnect delay of `reconnect_delay_secs`.
pub open spec fn reconnect_due(since_fail_ms: u64, reconnect_delay_secs: u64) -> bool {
    since_fail_ms >= reconnect_delay_secs * 1000
}

/// Whether a connection may be attempted: always when `connected`; else when
/// no failure time is known, or `since_fail_ms` (milliseconds since the last
/// failure) has reached `reconnect_delay_secs`.
pub fn may_try_connect_after(connected: bool, since_fail_ms: Option<u64>, reconnect_delay_secs: u64) -> (r: bool)
    ensures
        r == (connected || match since_fail_ms {
            None => true,
            Some(ms) => ms >= reconnect_delay_secs * 1000,
        }),
{
    if connected {
        return true;
    }
    match since_fail_ms {
        Some(ms) => (ms as u128) >= (reconnect_delay_secs as u128) * 1000,
        None => true,
    }
}

/// The payload bytes of `items` in all, or `None` when that passes
/// `usize::MAX`.
pub fn message_bytes(items: &Vec<QueuedMessage>) -> (r: Option<usize>)
    ensures
        match r {
            Some(n) => n == total_bytes(message_views(items@)),
            None => total_bytes(message_views(items@)) > usize::MAX,
        },
{
    let ghost v = message_views(items@);
    let mut n: usize = 0;
    let mut i: usize = 0;
    while i < items.len()
        invariant
            v == message_views(items@),
            i <= items@.len(),
            n == total_bytes(v.take(i as int)),
        decreases items@.len() - i,
    {
        let len = bytes_len(&items[i].payload);
        proof {
            assert(v[i as int] == items@[i as int]@);
            assert(v.take(i + 1).drop_last() =~= v.take(i as int));
            assert(v.take(i + 1).last() == v[i as int]);
            assert(total_bytes(v.take(i + 1)) == total_bytes(v.take(i as int)) + len);
        }
        if len > usize::MAX - n {
            proof {
                lemma_total_take_le(v, i + 1);
            }
            return None;
        }
        n = n + len;
        i = i + 1;
    }
    assert(v.take(items@.len() as int) =~= v);
    Some(n)
}

/// What a delivery of `items` reports: how many (as `u16`) and the size of
/// their inner batch (as `u32`).
pub fn delivery_report_for(items: &Vec<QueuedMessage>) -> (r: DeliveryReport)
    requires
        2 + 4 * items@.len() + total_bytes(message_views(items@)) <= usize::MAX,
    ensures
        r.msg_count == items@.len() as u16,
        r.batch_bytes == (2 + 4 * items@.len() + total_bytes(message_views(items@))) as u32,
{
    let ghost v = message_views(items@);
    let mut n: usize = 2;
    let mut i: usize = 0;
    while i < items.len()
        invariant
            v == message_views(items@),
            2 + 4 * items@.len() + total_bytes(v) <= usize::MAX,
            i <= items@.len(),
            n == 2 + 4 * i + total_bytes(v.take(i as int)),
        decreases items@.len() - i,
    {
        let len = bytes_len(&items[i].payload);
        proof {
            assert(v[i as int] == items@[i as int]@);
            assert(v.take(i + 1).drop_last() =~= v.take(i as int));
            assert(v.take(i + 1).last() == v[i as int]);
            assert(total_bytes(v.take(i + 1)) == total_bytes(v.take(i as int)) + len);
            lemma_total_take_le(v, i + 1);
        }
        n = n + 4 + len;
        i = i + 1;
    }
    assert(v.take(items@.len() as int) =~= v);
    DeliveryReport { msg_count: items.len() as u16, batch_bytes: n as u32 }
}

impl ProducerStats {
    /// A delivered batch: its items, bytes and one batch are counted when it
    /// carried items.
    pub fn record_delivery(&mut self, report: &DeliveryReport)
        ensures
            report.msg_count > 0 ==> *final(self) == (ProducerStats {
                published_items: old(self).published_items.wrapping_add(report.msg_count as u64),
                published_bytes: old(self).published_bytes.wrapping_add(report.batch_bytes as u64),
                published_batches: old(self).published_batches.wrapping_add(1),
                ..*old(self)
            }),
            report.msg_count == 0 ==> *final(self) == *old(self),
    {
        if report.msg_count > 0 {
            self.published_items = self.published_items.wrapping_add(report.msg_count as u64);
            self.published_bytes = self.published_bytes.wrapping_add(report.batch_bytes as u64);
            self.published_batches = self.published_batches.wrapping_add(1);
        }
    }

    /// A failed delivery is counted.
    pub fn record_failure(&mut self)
        ensures
            *final(self) == (ProducerStats { delivery_errors: old(self).delivery_errors.wrapping_add(1), ..*old(self) }),
    {
        self.delivery_errors = self.delivery_errors.wrapping_add(1);
    }
}

/// The items of a list of batches, in order.
pub open spec fn flatten(bs: Seq<Seq<Seq<u8>>>) -> Seq<Seq<u8>>
    decreases bs.len(),
{
    if bs.len() == 0 {
        Seq::empty()
    } else {
        flatten(bs.drop_last()) + bs.last()
    }
}

proof fn lemma_flatten_take_le(bs: Seq<Seq<Seq<u8>>>, j: int)
    requires
        0 <= j <= bs.len(),
    ensures
        flatten(bs.take(j)).len() <= flatten(bs).len(),
    decreases bs.len() - j,
{
    if j < bs.len() {
        lemma_flatten_take_le(bs, j + 1);
        assert(bs.take(j + 1).drop_last() =~= bs.take(j));
    } else {
        assert(bs.take(j) =~= bs);
    }
}

proof fn lemma_acc_push_conserves(p: Seq<Seq<u8>>, x: Seq<u8>, limit: nat)
    ensures
        acc_push(p, x, limit).0 + acc_push(p, x, limit).1 == p.push(x),
{
    if x.len() > limit {
        assert(p.push(x) + Seq::<Seq<u8>>::empty() =~= p.push(x));
    } else if seq_bytes(p) + x.len() > limit {
        assert(p + seq![x] =~= p.push(x));
    } else {
        assert(Seq::<Seq<u8>>::empty() + p.push(x) =~= p.push(x));
    }
}

/// The batches an accumulator push returns, flattened, are what `acc_push`
/// emits, and there are some exactly when it emits something.
proof fn lemma_flatten_acc_push(p: Seq<Seq<u8>>, x: Seq<u8>, limit: nat, outs: Seq<Seq<Seq<u8>>>)
    requires
        ({
            let flushed: Seq<Seq<Seq<u8>>> = if p.len() > 0 { seq![p] } else { Seq::empty() };
            if x.len() > limit {
                outs == flushed.push(seq![x])
            } else if seq_bytes(p) + x.len() > limit {
                outs == flushed
            } else {
                outs.len() == 0
            }
        }),
    ensures
        flatten(outs) == acc_push(p, x, limit).0,
        (outs.len() > 0) == (acc_push(p, x, limit).0.len() > 0),
{
    let flushed: Seq<Seq<Seq<u8>>> = if p.len() > 0 { seq![p] } else { Seq::empty() };
    assert(flatten(Seq::<Seq<Seq<u8>>>::empty()) =~= Seq::<Seq<u8>>::empty());
    if p.len() > 0 {
        assert(seq![p].drop_last() =~= Seq::<Seq<Seq<u8>>>::empty());
        assert(flatten(seq![p]) =~= p);
    }
    if x.len() > limit {
        assert(outs.drop_last() == flushed);
        assert(flatten(flushed) =~= p);
        assert(p + seq![x] =~= p.push(x));
    } else if seq_bytes(p) + x.len() > limit {
        assert(flatten(flushed) =~= p);
    }
}

} // verus!
