//! Accumulates payloads by size; a batch is flushed when `max_bytes` would be
//! exceeded or when it has been open for the flush timeout.

use crate::buf::{bytes_content, contents};
use crate::buf::bytes_len;
use crate::clock::{elapsed_ms, instant_now};
use bytes::Bytes;
use std::time::Instant;
use vstd::prelude::*;

verus! {

/// Sum of the lengths of `items`.
pub open spec fn seq_bytes(items: Seq<Seq<u8>>) -> nat
    decreases items.len(),
{
    if items.len() == 0 {
        0
    } else {
        seq_bytes(items.drop_last()) + items.last().len()
    }
}

/// Whether a batch open for `elapsed_ms` has reached a flush timeout of
/// `timeout_ms`.
pub open spec fn timed_out(elapsed_ms: u64, timeout_ms: u64) -> bool {
    elapsed_ms >= timeout_ms
}

pub struct BatchAccumulator {
    items: Vec<Bytes>,
    bytes: usize,
    max_bytes: usize,
    flush_timeout_ms: u64,
    opened_at: Option<Instant>,
}

impl BatchAccumulator {
    /// The pending items, in arrival order.
    pub closed spec fn pending(&self) -> Seq<Seq<u8>> {
        contents(self.items@)
    }

    /// The byte limit of a batch.
    pub closed spec fn limit(&self) -> nat {
        self.max_bytes as nat
    }

    pub closed spec fn timeout_ms(&self) -> u64 {
        self.flush_timeout_ms
    }

    /// The invariant: the byte count is the sum of the pending items and
    /// stays within the limit (at least 1); a batch is open exactly when
    /// items are pending.
    pub closed spec fn wf(&self) -> bool {
        &&& self.max_bytes >= 1
        &&& self.bytes == seq_bytes(self.pending())
        &&& self.bytes <= self.max_bytes
        &&& (self.opened_at is Some <==> self.items@.len() > 0)
    }

    pub fn new(max_bytes: usize, flush_timeout_ms: u64) -> (r: Self)
        ensures
            r.wf(),
            r.pending().len() == 0,
            r.limit() == if max_bytes < 1 { 1 } else { max_bytes },
            r.timeout_ms() == flush_timeout_ms,
    {
        let r = BatchAccumulator {
            items: Vec::new(),
            bytes: 0,
            max_bytes: if max_bytes < 1 { 1 } else { max_bytes },
            flush_timeout_ms,
            opened_at: None,
        };
        assert(r.pending() =~= Seq::<Seq<u8>>::empty());
        r
    }

    pub fn is_empty(&self) -> (r: bool)
        ensures
            r == (self.pending().len() == 0),
    {
        self.items.len() == 0
    }

    pub fn pending_bytes(&self) -> (n: usize)
        requires
            self.wf(),
        ensures
            n == seq_bytes(self.pending()),
            n <= self.limit(),
    {
        self.bytes
    }

    pub fn pending_items(&self) -> (n: usize)
        ensures
            n == self.pending().len(),
    {
        self.items.len()
    }

    /// The pending items as one batch, leaving the accumulator empty; `None`
    /// when nothing is pending.
    pub fn take_batch(&mut self) -> (r: Option<Vec<Bytes>>)
        requires
            old(self).wf(),
        ensures
            final(self).wf(),
            final(self).limit() == old(self).limit(),
            final(self).timeout_ms() == old(self).timeout_ms(),
            final(self).pending().len() == 0,
            old(self).pending().len() == 0 ==> r is None,
            old(self).pending().len() > 0 ==> (r matches Some(b) && contents(b@) == old(self).pending()),
    {
        if self.items.len() == 0 {
            return None;
        }
        self.bytes = 0;
        self.opened_at = None;
        let mut batch: Vec<Bytes> = Vec::new();
        std::mem::swap(&mut batch, &mut self.items);
        assert(self.pending() =~= Seq::<Seq<u8>>::empty());
        Some(batch)
    }

    /// Adds an item. Returns the batches ready to send, in order: the pending
    /// batch when the item does not fit beside it, and the item alone when it
    /// is larger than the limit (it is then not kept).
    pub fn push(&mut self, item: Bytes) -> (out: Vec<Vec<Bytes>>)
        requires
            old(self).wf(),
        ensures
            final(self).wf(),
            final(self).limit() == old(self).limit(),
            final(self).timeout_ms() == old(self).timeout_ms(),
            ({
                let p = old(self).pending();
                let x = bytes_content(item);
                let flushed: Seq<Seq<Seq<u8>>> = if p.len() > 0 { seq![p] } else { Seq::empty() };
                let outs = out@.map_values(|b: Vec<Bytes>| contents(b@));
                if x.len() > old(self).limit() {
                    &&& outs == flushed.push(seq![x])
                    &&& final(self).pending().len() == 0
                } else if seq_bytes(p) + x.len() > old(self).limit() {
                    &&& outs == flushed
                    &&& final(self).pending() == seq![x]
                } else {
                    &&& outs.len() == 0
                    &&& final(self).pending() == p.push(x)
                }
            }),
    {
        let item_len = bytes_len(&item);
        let ghost p = self.pending();
        let ghost x = bytes_content(item);
        let mut out: Vec<Vec<Bytes>> = Vec::new();
        if item_len > self.max_bytes {
            if let Some(batch) = self.take_batch() {
                out.push(batch);
            }
            let mut single: Vec<Bytes> = Vec::new();
            single.push(item);
            assert(contents(single@) =~= seq![x]);
            out.push(single);
            proof {
                let flushed: Seq<Seq<Seq<u8>>> = if p.len() > 0 { seq![p] } else { Seq::empty() };
                assert(out@.map_values(|b: Vec<Bytes>| contents(b@)) =~= flushed.push(seq![x]));
            }
            return out;
        }
        if item_len > self.max_bytes - self.bytes {
            if let Some(batch) = self.take_batch() {
                out.push(batch);
            }
        }
        let ghost mid = self.pending();
        if self.opened_at.is_none() {
            self.opened_at = Some(instant_now());
        }
        self.bytes = self.bytes + item_len;
        self.items.push(item);
        proof {
            assert(self.pending() =~= mid.push(x));
            assert(self.pending().drop_last() =~= mid);
            let flushed: Seq<Seq<Seq<u8>>> = if p.len() > 0 { seq![p] } else { Seq::empty() };
            if seq_bytes(p) + x.len() > self.max_bytes {
                assert(out@.map_values(|b: Vec<Bytes>| contents(b@)) =~= flushed);
                assert(mid.push(x) =~= seq![x]);
            } else {
                assert(out@.map_values(|b: Vec<Bytes>| contents(b@)) =~= Seq::<Seq<Seq<u8>>>::empty());
            }
        }
        out
    }

    /// The pending batch when the batch has been open for `elapsed_ms` and
    /// that reaches the flush timeout; `None` otherwise.
    pub fn flush_if_elapsed(&mut self, elapsed_ms: u64) -> (r: Option<Vec<Bytes>>)
        requires
            old(self).wf(),
        ensures
            final(self).wf(),
            final(self).limit() == old(self).limit(),
            final(self).timeout_ms() == old(self).timeout_ms(),
            (old(self).pending().len() == 0 || elapsed_ms < old(self).timeout_ms()) ==> (r is None && final(self).pending() == old(self).pending()),
            (old(self).pending().len() > 0 && elapsed_ms >= old(self).timeout_ms()) ==> (r matches Some(b) && contents(b@) == old(self).pending() && final(self).pending().len() == 0),
    {
        if self.items.len() == 0 {
            return None;
        }
        if elapsed_ms < self.flush_timeout_ms {
            return None;
        }
        self.take_batch()
    }

    /// `flush_if_elapsed` with the time since the batch opened.
    pub fn flush_if_timeout(&mut self) -> (r: Option<Vec<Bytes>>)
        requires
            old(self).wf(),
        ensures
            final(self).wf(),
            final(self).limit() == old(self).limit(),
            final(self).timeout_ms() == old(self).timeout_ms(),
            old(self).pending().len() == 0 ==> r is None,
            r is None ==> final(self).pending() == old(self).pending(),
            r matches Some(b) ==> contents(b@) == old(self).pending() && final(self).pending().len() == 0,
            old(self).pending().len() > 0 ==> exists|ms: u64| #[trigger] timed_out(ms, old(self).timeout_ms()) == (r is Some),
            (old(self).pending().len() > 0 && old(self).timeout_ms() == 0) ==> r is Some,
    {
        let elapsed = match &self.opened_at {
            Some(opened) => elapsed_ms(opened),
            None => return None,
        };
        let ghost timeout = self.flush_timeout_ms;
        let r = self.flush_if_elapsed(elapsed);
        assert(timed_out(elapsed, timeout) == (r is Some));
        r
    }
}

} // verus!
