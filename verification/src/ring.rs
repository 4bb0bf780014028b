//! Byte-capped FIFO that drops the oldest entries to make room — the ring of
//! the producer (pending ingress and the ring that assignments drain).

use crate::buf::{bytes_content, bytes_len};
use bytes::Bytes;
use std::collections::VecDeque;
use vstd::prelude::*;

verus! {

/// A message taken out of a ring: payload and the time it was enqueued.
#[derive(Debug, Clone)]
pub struct QueuedMessage {
    pub payload: Bytes,
    pub enqueued_ms: u64,
}

/// One stored entry, as `(payload bytes, enqueued_ms)`.
pub type EntryView = (Seq<u8>, u64);

impl QueuedMessage {
    pub open spec fn view(&self) -> EntryView {
        (bytes_content(self.payload), self.enqueued_ms)
    }

    /// The number of payload bytes (what `push_front` adds to the ring).
    pub fn payload_len(&self) -> (n: usize)
        ensures
            n == bytes_content(self.payload).len(),
    {
        bytes_len(&self.payload)
    }
}

/// The views of a list of messages.
pub open spec fn message_views(v: Seq<QueuedMessage>) -> Seq<EntryView> {
    v.map_values(|m: QueuedMessage| m.view())
}

struct RingEntry {
    payload: Bytes,
    enqueued_ms: u64,
}

impl RingEntry {
    spec fn view(&self) -> EntryView {
        (bytes_content(self.payload), self.enqueued_ms)
    }
}

spec fn entry_views(v: Seq<RingEntry>) -> Seq<EntryView> {
    v.map_values(|e: RingEntry| e.view())
}

/// The outcome of a push: how many entries it dropped and whether the new
/// payload was stored.
#[derive(Debug, Clone, Copy, Default)]
pub struct PushResult {
    pub dropped: u32,
    pub accepted: bool,
}

/// Sum of the payload lengths of `q`.
pub open spec fn total_bytes(q: Seq<EntryView>) -> nat
    decreases q.len(),
{
    if q.len() == 0 {
        0
    } else {
        total_bytes(q.drop_last()) + q.last().0.len()
    }
}

/// How many of the oldest entries must go so that `len` more bytes fit
/// within `max`.
pub open spec fn drop_count(q: Seq<EntryView>, len: nat, max: nat) -> nat
    decreases q.len(),
{
    if q.len() == 0 || total_bytes(q) + len <= max {
        0
    } else {
        1 + drop_count(q.drop_first(), len, max)
    }
}

/// How many of the first entries of `q` stay when the newest are dropped
/// until the rest fits within `max`.
pub open spec fn keep_count(q: Seq<EntryView>, max: nat) -> nat
    decreases q.len(),
{
    if total_bytes(q) <= max || q.len() == 0 {
        q.len()
    } else {
        keep_count(q.drop_last(), max)
    }
}

pub proof fn lemma_total_bytes_first(q: Seq<EntryView>)
    requires
        q.len() > 0,
    ensures
        total_bytes(q) == q[0].0.len() + total_bytes(q.drop_first()),
    decreases q.len(),
{
    if q.len() > 1 {
        lemma_total_bytes_first(q.drop_last());
        assert(q.drop_last().drop_first() =~= q.drop_first().drop_last());
        assert(q.drop_first().last() == q.last());
        assert(q.drop_last()[0] == q[0]);
    } else {
        assert(q.drop_first() =~= Seq::<EntryView>::empty());
        assert(q.drop_last() =~= Seq::<EntryView>::empty());
        assert(q.last() == q[0]);
    }
}

pub proof fn lemma_total_bytes_push(q: Seq<EntryView>, x: EntryView)
    ensures
        total_bytes(q.push(x)) == total_bytes(q) + x.0.len(),
{
    assert(q.push(x).drop_last() =~= q);
}

proof fn lemma_total_bytes_prepend(x: EntryView, q: Seq<EntryView>)
    ensures
        total_bytes(seq![x] + q) == x.0.len() + total_bytes(q),
{
    lemma_total_bytes_first(seq![x] + q);
    assert((seq![x] + q).drop_first() =~= q);
}

proof fn lemma_drop_count_bound(q: Seq<EntryView>, len: nat, max: nat)
    requires
        len <= max,
    ensures
        drop_count(q, len, max) <= q.len(),
        total_bytes(q.skip(drop_count(q, len, max) as int)) + len <= max,
    decreases q.len(),
{
    if q.len() == 0 || total_bytes(q) + len <= max {
        assert(q.skip(0) =~= q);
    } else {
        lemma_drop_count_bound(q.drop_first(), len, max);
        assert(q.drop_first().skip(drop_count(q.drop_first(), len, max) as int) =~= q.skip(
            drop_count(q, len, max) as int,
        ));
    }
}

proof fn lemma_keep_count_bound(q: Seq<EntryView>, max: nat)
    ensures
        keep_count(q, max) <= q.len(),
        total_bytes(q.take(keep_count(q, max) as int)) <= max,
    decreases q.len(),
{
    if total_bytes(q) <= max || q.len() == 0 {
        assert(q.take(q.len() as int) =~= q);
    } else {
        lemma_keep_count_bound(q.drop_last(), max);
        assert(q.drop_last().take(keep_count(q, max) as int) =~= q.take(keep_count(q, max) as int));
    }
}

/// A push drops no more than it must: keeping any of the entries that
/// `drop_count` drops would leave too many bytes for `len` more.
pub proof fn lemma_drop_count_least(q: Seq<EntryView>, len: nat, max: nat)
    ensures
        drop_count(q, len, max) <= q.len(),
        forall|j: int| 0 <= j < drop_count(q, len, max) ==> #[trigger] total_bytes(q.skip(j)) + len > max,
    decreases q.len(),
{
    if q.len() > 0 && total_bytes(q) + len > max {
        lemma_drop_count_least(q.drop_first(), len, max);
        assert forall|j: int| 0 <= j < drop_count(q, len, max) implies #[trigger] total_bytes(q.skip(j)) + len > max by {
            if j == 0 {
                assert(q.skip(0) =~= q);
            } else {
                assert(q.skip(j) =~= q.drop_first().skip(j - 1));
            }
        }
    }
}

/// Putting an entry back at the front drops no more than it must: keeping
/// any more of the newest entries would exceed the cap.
pub proof fn lemma_keep_count_most(q: Seq<EntryView>, max: nat)
    ensures
        forall|j: int| keep_count(q, max) < j <= q.len() ==> #[trigger] total_bytes(q.take(j)) > max,
    decreases q.len(),
{
    if !(total_bytes(q) <= max || q.len() == 0) {
        let d = q.drop_last();
        lemma_keep_count_most(d, max);
        assert forall|j: int| keep_count(q, max) < j <= q.len() implies #[trigger] total_bytes(q.take(j)) > max by {
            if j == q.len() {
                assert(q.take(j) =~= q);
            } else {
                assert(q.take(j) =~= d.take(j));
            }
        }
    }
}

/// Byte-capped queue with drop-oldest on push.
pub struct ByteRing {
    queue: VecDeque<RingEntry>,
    bytes: usize,
    max_bytes: usize,
    pub drops_total: u64,
}

impl ByteRing {
    /// The count of entries this ring has dropped.
    pub closed spec fn drops(&self) -> u64 {
        self.drops_total
    }

    /// The byte cap.
    pub closed spec fn cap(&self) -> nat {
        self.max_bytes as nat
    }

    /// Whether `n` more pushes keep the drop and item counters in range.
    pub open spec fn room(&self, n: nat) -> bool {
        &&& self.drops() + self@.len() + n <= u64::MAX
        &&& self@.len() + n < u32::MAX
    }

    /// The ring's invariant: its byte count is the sum of its payloads and
    /// stays within the cap, which is at least 1.
    pub closed spec fn wf(&self) -> bool {
        &&& self.max_bytes >= 1
        &&& self.bytes == total_bytes(self.view())
        &&& self.bytes <= self.max_bytes
    }

    pub fn new(max_bytes: usize) -> (r: Self)
        ensures
            r.wf(),
            r@.len() == 0,
            r.cap() == if max_bytes < 1 { 1 } else { max_bytes },
            r.drops() == 0,
    {
        let r = ByteRing {
            queue: VecDeque::new(),
            bytes: 0,
            max_bytes: if max_bytes < 1 { 1 } else { max_bytes },
            drops_total: 0,
        };
        assert(r@ =~= Seq::<EntryView>::empty());
        r
    }

    /// How many entries this ring has dropped.
    pub fn total_drops(&self) -> (n: u64)
        ensures
            n == self.drops(),
    {
        self.drops_total
    }

    /// Whether `n` more entries keep the counters in range (`room(n)`).
    pub fn has_room(&self, n: usize) -> (r: bool)
        ensures
            r == self.room(n as nat),
    {
        let drops = self.drops_total as u128;
        let len = self.queue.len() as u128;
        drops + len + (n as u128) <= 0xFFFF_FFFF_FFFF_FFFFu128 && len + (n as u128) < 0xFFFF_FFFFu128
    }

    pub fn len(&self) -> (n: usize)
        ensures
            n == self@.len(),
    {
        self.queue.len()
    }

    pub fn is_empty(&self) -> (r: bool)
        ensures
            r == (self@.len() == 0),
    {
        self.queue.len() == 0
    }

    /// A ring never holds more bytes than its cap.
    pub proof fn lemma_within_cap(&self)
        requires
            self.wf(),
        ensures
            total_bytes(self@) <= self.cap(),
            self.cap() >= 1,
    {
    }

    /// Bytes stored: the sum of the payload lengths.
    pub fn byte_len(&self) -> (n: usize)
        requires
            self.wf(),
        ensures
            n == total_bytes(self@),
            n <= self.cap(),
    {
        self.bytes
    }

    /// Age of the oldest entry at `now_ms` (0 when empty or in the future).
    pub fn head_age_ms(&self, now_ms: u64) -> (age: u64)
        ensures
            self@.len() == 0 ==> age == 0,
            self@.len() > 0 ==> age == (if now_ms >= self@[0].1 { now_ms - self@[0].1 } else { 0 }),
    {
        if self.queue.len() == 0 {
            return 0;
        }
        let e = &self.queue[0];
        if now_ms >= e.enqueued_ms {
            now_ms - e.enqueued_ms
        } else {
            0
        }
    }

    fn pop_front_inner(&mut self) -> (r: Option<RingEntry>)
        requires
            old(self).wf(),
        ensures
            final(self).wf(),
            final(self).max_bytes == old(self).max_bytes,
            final(self).drops() == old(self).drops(),
            old(self)@.len() == 0 ==> r is None && final(self)@ == old(self)@,
            old(self)@.len() > 0 ==> (r matches Some(e) && e@ == old(self)@[0] && final(self)@ == old(self)@.drop_first()),
    {
        let ghost before = self@;
        match self.queue.pop_front() {
            None => None,
            Some(entry) => {
                proof {
                    assert(self@ =~= before.drop_first());
                    lemma_total_bytes_first(before);
                }
                let n = bytes_len(&entry.payload);
                self.bytes = self.bytes - n;
                Some(entry)
            },
        }
    }

    /// Push back; the oldest entries are dropped until the payload fits. An
    /// empty payload is accepted and not stored; one larger than the cap is
    /// refused and counted as a drop.
    pub fn push(&mut self, payload: Bytes, enqueued_ms: u64) -> (r: PushResult)
        requires
            old(self).wf(),
            old(self).room(1),
        ensures
            final(self).wf(),
            final(self).cap() == old(self).cap(),
            final(self)@.len() <= old(self)@.len() + 1,
            final(self).drops() + final(self)@.len() <= old(self).drops() + old(self)@.len() + 1,
            ({
                let q = old(self)@;
                let len = bytes_content(payload).len();
                if len == 0 {
                    &&& r == (PushResult { dropped: 0, accepted: true })
                    &&& final(self)@ == q
                    &&& final(self).drops() == old(self).drops()
                } else if len > old(self).cap() {
                    &&& r == (PushResult { dropped: 1, accepted: false })
                    &&& final(self)@ == q
                    &&& final(self).drops() == old(self).drops() + 1
                } else {
                    let k = drop_count(q, len, old(self).cap());
                    &&& r == (PushResult { dropped: k as u32, accepted: true })
                    &&& final(self)@ == q.skip(k as int).push((bytes_content(payload), enqueued_ms))
                    &&& final(self).drops() == old(self).drops() + k
                }
            }),
    {
        let len = bytes_len(&payload);
        if len == 0 {
            return PushResult { dropped: 0, accepted: true };
        }
        if len > self.max_bytes {
            self.drops_total = self.drops_total + 1;
            return PushResult { dropped: 1, accepted: false };
        }
        let ghost q = self@;
        let ghost max = self.max_bytes as nat;
        let mut dropped: u32 = 0;
        proof {
            lemma_drop_count_bound(q, len as nat, max);
        }
        while self.bytes > self.max_bytes - len && self.queue.len() > 0
            invariant
                self.wf(),
                self.max_bytes == max,
                len <= max,
                dropped <= q.len(),
                q.len() < u32::MAX,
                self@ == q.skip(dropped as int),
                self.drops_total == old(self).drops_total + dropped,
                old(self).drops_total + q.len() + 1 <= u64::MAX,
                drop_count(q, len as nat, max) == dropped + drop_count(self@, len as nat, max),
            decreases self@.len(),
        {
            let ghost cur = self@;
            let e = self.pop_front_inner();
            proof {
                assert(q.skip(dropped + 1) =~= cur.drop_first());
            }
            dropped = dropped + 1;
            self.drops_total = self.drops_total + 1;
        }
        let ghost mid = self@;
        assert(drop_count(mid, len as nat, max) == 0);
        self.bytes = self.bytes + len;
        self.queue.push_back(RingEntry { payload, enqueued_ms });
        proof {
            assert(self@ =~= mid.push((bytes_content(payload), enqueued_ms)));
            lemma_total_bytes_push(mid, (bytes_content(payload), enqueued_ms));
        }
        PushResult { dropped, accepted: true }
    }

    /// The oldest message, removed.
    pub fn pop_front(&mut self) -> (r: Option<QueuedMessage>)
        requires
            old(self).wf(),
        ensures
            final(self).wf(),
            final(self).cap() == old(self).cap(),
            final(self).drops() == old(self).drops(),
            old(self)@.len() == 0 ==> r is None && final(self)@ == old(self)@,
            old(self)@.len() > 0 ==> (r matches Some(m) && m@ == old(self)@[0] && final(self)@ == old(self)@.drop_first()),
    {
        match self.pop_front_inner() {
            None => None,
            Some(e) => Some(QueuedMessage { payload: e.payload, enqueued_ms: e.enqueued_ms }),
        }
    }

    /// Up to `max_items` of the oldest messages, removed, oldest first.
    pub fn pop_up_to(&mut self, max_items: usize, now_ms: u64) -> (out: Vec<QueuedMessage>)
        requires
            old(self).wf(),
        ensures
            final(self).wf(),
            final(self).cap() == old(self).cap(),
            final(self).drops() == old(self).drops(),
            ({
                let k = if max_items < old(self)@.len() { max_items as int } else { old(self)@.len() as int };
                &&& message_views(out@) == old(self)@.take(k)
                &&& final(self)@ == old(self)@.skip(k)
            }),
    {
        let take = if max_items < self.queue.len() { max_items } else { self.queue.len() };
        let ghost q = self@;
        let mut out: Vec<QueuedMessage> = Vec::new();
        let mut i: usize = 0;
        while i < take
            invariant
                self.wf(),
                self.max_bytes == old(self).max_bytes,
                self.drops_total == old(self).drops_total,
                take <= q.len(),
                i <= take,
                self@ == q.skip(i as int),
                message_views(out@) == q.take(i as int),
            decreases take - i,
        {
            let ghost cur = self@;
            if let Some(entry) = self.pop_front_inner() {
                let ghost prev = out@;
                let m = QueuedMessage { payload: entry.payload, enqueued_ms: entry.enqueued_ms };
                assert(m@ == q[i as int]);
                out.push(m);
                proof {
                    assert(message_views(out@) =~= message_views(prev).push(m@));
                    assert(q.skip(i + 1) =~= cur.drop_first());
                    assert(message_views(out@) =~= q.take(i + 1));
                }
            }
            i = i + 1;
        }
        let _ = now_ms;
        out
    }

    /// Requeue at the head; the newest entries are dropped while the ring is
    /// over its cap. Returns how many were dropped.
    pub fn push_front(&mut self, msg: QueuedMessage) -> (dropped: u32)
        requires
            old(self).wf(),
            old(self).room(1),
            total_bytes(old(self)@) + bytes_content(msg.payload).len() <= usize::MAX,
        ensures
            final(self).wf(),
            final(self).cap() == old(self).cap(),
            final(self)@.len() <= old(self)@.len() + 1,
            final(self).drops() + final(self)@.len() == old(self).drops() + old(self)@.len() + 1,
            ({
                let q = seq![msg@] + old(self)@;
                let k = keep_count(q, old(self).cap());
                &&& final(self)@ == q.take(k as int)
                &&& dropped == q.len() - k
                &&& final(self).drops() == old(self).drops() + dropped
            }),
    {
        let ghost q = seq![msg@] + self@;
        let ghost max = self.max_bytes as nat;
        let len = bytes_len(&msg.payload);
        proof {
            lemma_total_bytes_prepend(msg@, self@);
        }
        self.bytes = self.bytes + len;
        self.queue.push_front(RingEntry { payload: msg.payload, enqueued_ms: msg.enqueued_ms });
        assert(self@ =~= q);
        let mut dropped: u32 = 0;
        proof {
            lemma_keep_count_bound(q, max);
        }
        while self.bytes > self.max_bytes
            invariant
                self.max_bytes == max,
                max >= 1,
                self.bytes == total_bytes(self@),
                dropped <= q.len(),
                q.len() < u32::MAX,
                self@ == q.take(q.len() - dropped),
                keep_count(q, max) == keep_count(self@, max),
                self.drops_total == old(self).drops_total + dropped,
                old(self).drops_total + q.len() <= u64::MAX,
            decreases self@.len(),
        {
            let ghost cur = self@;
            match self.queue.pop_back() {
                Some(old_entry) => {
                    proof {
                        assert(self@ =~= cur.drop_last());
                        assert(q.take(q.len() - (dropped + 1)) =~= cur.drop_last());
                    }
                    let n = bytes_len(&old_entry.payload);
                    self.bytes = self.bytes - n;
                    dropped = dropped + 1;
                    self.drops_total = self.drops_total + 1;
                },
                None => {
                    assert(false);
                },
            }
        }
        proof {
            assert(total_bytes(self@) <= max);
            assert(keep_count(self@, max) == self@.len());
        }
        dropped
    }
}

impl View for ByteRing {
    type V = Seq<EntryView>;

    /// The stored entries, oldest first.
    closed spec fn view(&self) -> Seq<EntryView> {
        entry_views(self.queue@)
    }
}

} // verus!
