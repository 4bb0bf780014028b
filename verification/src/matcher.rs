//! Matchmaking: consumers that asked for a batch wait in a queue served
//! round-robin; producers with backlog stand in a ready pool ranked by
//! backlog. A match takes one of each and builds the assignment the
//! producer is sent.

use crate::consumers::{find_consumer, ConsumerPhase, ConsumerRegistry};
use crate::producers::{
    best_weight, contains_u64, eligible, lookup, poolable_ids, promoted, rank_next_rr, rank_pick, released,
    stale_of, tier, update_id, with_state, ProducerEntry, ProducerRegistry, ProducerState,
};
use crate::protocol::{assign_frame, encode_assign, utf8, AssignRequest, ProtocolError, ReadyRequest};
use vstd::prelude::*;

verus! {

/// A consumer waiting for a match: what it asked for and where it
/// receives batches.
#[derive(Debug, Clone)]
pub struct PendingConsumer {
    pub consumer_id: u64,
    pub ready: ReadyRequest,
    pub data_addr: String,
}

/// A match made: the producer, the consumer, and the assignment frame to
/// send the producer.
#[derive(Debug)]
pub struct Assignment {
    pub producer_id: u64,
    pub consumer: PendingConsumer,
    pub frame: Vec<u8>,
}

/// `s` without any `x`.
pub open spec fn remove_id(s: Seq<u64>, x: u64) -> Seq<u64>
    decreases s.len(),
{
    if s.len() == 0 {
        s
    } else if s.last() == x {
        remove_id(s.drop_last(), x)
    } else {
        remove_id(s.drop_last(), x).push(s.last())
    }
}

/// `s` without the ids in `xs`.
pub open spec fn remove_ids(s: Seq<u64>, xs: Seq<u64>) -> Seq<u64>
    decreases xs.len(),
{
    if xs.len() == 0 {
        s
    } else {
        remove_id(remove_ids(s, xs.drop_last()), xs.last())
    }
}

/// `s` with `x` added at the end unless it holds it already.
pub open spec fn with_id(s: Seq<u64>, x: u64) -> Seq<u64> {
    if s.contains(x) { s } else { s.push(x) }
}

/// `s` with the ids of `xs` added in turn.
pub open spec fn with_ids(s: Seq<u64>, xs: Seq<u64>) -> Seq<u64>
    decreases xs.len(),
{
    if xs.len() == 0 {
        s
    } else {
        with_id(with_ids(s, xs.drop_last()), xs.last())
    }
}

/// The waiting consumers other than `cid`.
pub open spec fn without_waiter(s: Seq<PendingConsumer>, cid: u64) -> Seq<PendingConsumer>
    decreases s.len(),
{
    if s.len() == 0 {
        s
    } else if s.last().consumer_id == cid {
        without_waiter(s.drop_last(), cid)
    } else {
        without_waiter(s.drop_last(), cid).push(s.last())
    }
}

/// Index of the first waiter `cid`, or the length when there is none.
pub open spec fn waiter_index(s: Seq<PendingConsumer>, cid: u64) -> int
    decreases s.len(),
{
    if s.len() == 0 {
        0
    } else if s[0].consumer_id == cid {
        0
    } else {
        1 + waiter_index(s.drop_first(), cid)
    }
}

/// The position a round-robin turn serves in a queue of `len`: the cursor,
/// or the front when the cursor is past the end.
pub open spec fn rr_position(rr: usize, len: nat) -> int {
    if rr >= len { 0 } else { rr as int }
}

/// Whether a pool holds no id twice.
pub open spec fn distinct_ids(s: Seq<u64>) -> bool {
    forall|a: int, b: int| 0 <= a < b < s.len() ==> s[a] != s[b]
}

proof fn lemma_remove_id(s: Seq<u64>, x: u64)
    ensures
        forall|y: u64| remove_id(s, x).contains(y) <==> (s.contains(y) && y != x),
        distinct_ids(s) ==> distinct_ids(remove_id(s, x)),
        remove_id(s, x).len() <= s.len(),
    decreases s.len(),
{
    if s.len() > 0 {
        let d = s.drop_last();
        lemma_remove_id(d, x);
        let r = remove_id(d, x);
        assert forall|y: u64| remove_id(s, x).contains(y) <==> (s.contains(y) && y != x) by {
            if s.contains(y) && y != x {
                let j = choose|j: int| 0 <= j < s.len() && s[j] == y;
                if j < s.len() - 1 {
                    assert(d[j] == y);
                    assert(d.contains(y));
                    assert(r.contains(y));
                    let k = choose|k: int| 0 <= k < r.len() && r[k] == y;
                    if s.last() != x {
                        assert(remove_id(s, x)[k] == y);
                    }
                } else {
                    assert(remove_id(s, x) == r.push(s.last()));
                    assert(remove_id(s, x)[r.len() as int] == y);
                }
            }
            if remove_id(s, x).contains(y) {
                let j = choose|j: int| 0 <= j < remove_id(s, x).len() && remove_id(s, x)[j] == y;
                if s.last() == x {
                    assert(remove_id(s, x) == r);
                    assert(r.contains(y));
                } else if j < r.len() {
                    assert(r[j] == y);
                    assert(r.contains(y));
                } else {
                    assert(s[s.len() - 1] == y);
                }
                if r.contains(y) {
                    assert(d.contains(y));
                    let k = choose|k: int| 0 <= k < d.len() && d[k] == y;
                    assert(s[k] == y);
                }
            }
        }
        if distinct_ids(s) {
            assert(distinct_ids(d));
            if s.last() != x {
                assert forall|a: int, b: int| 0 <= a < b < r.len() + 1 implies r.push(s.last())[a] != r.push(s.last())[b] by {
                    if b == r.len() {
                        if r[a] == s.last() {
                            assert(r.contains(s.last()));
                            assert(d.contains(s.last()));
                            let k = choose|k: int| 0 <= k < d.len() && d[k] == s.last();
                            assert(s[k] == s[s.len() - 1]);
                        }
                    }
                }
            }
        }
    }
}

proof fn lemma_without_waiter_len(s: Seq<PendingConsumer>, cid: u64)
    ensures
        without_waiter(s, cid).len() <= s.len(),
    decreases s.len(),
{
    if s.len() > 0 {
        lemma_without_waiter_len(s.drop_last(), cid);
    }
}

proof fn lemma_waiter_index(s: Seq<PendingConsumer>, cid: u64, i: int)
    requires
        0 <= i <= s.len(),
        forall|j: int| 0 <= j < i ==> s[j].consumer_id != cid,
        i < s.len() ==> s[i].consumer_id == cid,
    ensures
        waiter_index(s, cid) == i,
    decreases s.len(),
{
    if s.len() > 0 && i > 0 {
        lemma_waiter_index(s.drop_first(), cid, i - 1);
    }
}

proof fn lemma_without_after_update(s: Seq<ProducerEntry>, id: u64)
    ensures
        crate::producers::without(
            update_id(s, id, |e: ProducerEntry| ProducerEntry { pending_consumer_id: None, ..e }),
            id,
        ) == crate::producers::without(s, id),
    decreases s.len(),
{
    if s.len() > 0 {
        let u = update_id(s, id, |e: ProducerEntry| ProducerEntry { pending_consumer_id: None, ..e });
        lemma_without_after_update(s.drop_last(), id);
        assert(u.drop_last() =~= update_id(s.drop_last(), id, |e: ProducerEntry| ProducerEntry { pending_consumer_id: None, ..e }));
    }
}

/// The pending entry a consumer gets when it is queued again after its
/// producer left.
pub open spec fn requeued(c: u64, e: crate::consumers::ConsumerEntry) -> PendingConsumer {
    PendingConsumer {
        consumer_id: c,
        ready: ReadyRequest { max_items: crate::consumers::at_least_one_u16(e.max_batch_requested), consumer_tag: e.consumer_tag },
        data_addr: e.data_addr,
    }
}

/// Queueing a consumer leaves it in the queue once: no entry of it is left
/// among the others, and the others keep their order.
pub proof fn lemma_push_waiting_single(q: Seq<PendingConsumer>, e: PendingConsumer)
    ensures
        forall|j: int| 0 <= j < without_waiter(q, e.consumer_id).len()
            ==> #[trigger] without_waiter(q, e.consumer_id).push(e)[j].consumer_id != e.consumer_id,
        without_waiter(q, e.consumer_id).push(e).last() == e,
    decreases q.len(),
{
    lemma_without_waiter_excludes(q, e.consumer_id);
    let w = without_waiter(q, e.consumer_id);
    assert forall|j: int| 0 <= j < w.len() implies #[trigger] w.push(e)[j].consumer_id != e.consumer_id by {
        assert(w.push(e)[j] == w[j]);
    }
}

proof fn lemma_without_waiter_excludes(q: Seq<PendingConsumer>, c: u64)
    ensures
        forall|j: int| 0 <= j < without_waiter(q, c).len() ==> #[trigger] without_waiter(q, c)[j].consumer_id != c,
    decreases q.len(),
{
    if q.len() > 0 {
        lemma_without_waiter_excludes(q.drop_last(), c);
        let w = without_waiter(q.drop_last(), c);
        if q.last().consumer_id != c {
            assert forall|j: int| 0 <= j < w.len() + 1 implies #[trigger] w.push(q.last())[j].consumer_id != c by {
                if j < w.len() {
                    assert(w.push(q.last())[j] == w[j]);
                }
            }
        }
    }
}

proof fn lemma_remove_ids(s: Seq<u64>, xs: Seq<u64>)
    ensures
        forall|y: u64| remove_ids(s, xs).contains(y) <==> (s.contains(y) && !xs.contains(y)),
    decreases xs.len(),
{
    if xs.len() > 0 {
        let d = xs.drop_last();
        lemma_remove_ids(s, d);
        lemma_remove_id(remove_ids(s, d), xs.last());
        assert forall|y: u64| remove_ids(s, xs).contains(y) <==> (s.contains(y) && !xs.contains(y)) by {
            if xs.contains(y) && y != xs.last() {
                let j = choose|j: int| 0 <= j < xs.len() && xs[j] == y;
                assert(d[j] == y);
            }
            if d.contains(y) {
                let j = choose|j: int| 0 <= j < d.len() && d[j] == y;
                assert(xs[j] == y);
            }
            assert(xs[xs.len() - 1] == xs.last());
        }
    }
}

proof fn lemma_stale_all(ps: Seq<ProducerEntry>, pool: Seq<u64>)
    requires
        forall|j: int| 0 <= j < pool.len() ==> !eligible(ps, #[trigger] pool[j]),
    ensures
        stale_of(ps, pool) == pool,
    decreases pool.len(),
{
    if pool.len() > 0 {
        let d = pool.drop_last();
        assert forall|j: int| 0 <= j < d.len() implies !eligible(ps, #[trigger] d[j]) by {
            assert(d[j] == pool[j]);
        }
        lemma_stale_all(ps, d);
        assert(pool[pool.len() - 1] == pool.last());
        assert(d.push(pool.last()) =~= pool);
    }
}

/// Matching stops only when a side is exhausted: when the ranking of the
/// ready pool picks no producer, every member of the pool is stale, so the
/// pool that `next_assignment` leaves is empty. Together with its contract,
/// `next_assignment` returns `Ok(None)` only when the queue or the pool it
/// leaves is empty.
pub proof fn lemma_no_pick_empties_pool(ps: Seq<ProducerEntry>, pool: Seq<u64>, rr: usize)
    ensures
        rank_pick(ps, pool, rr) is None ==> remove_ids(pool, stale_of(ps, pool)).len() == 0,
{
    if rank_pick(ps, pool, rr) is None {
        crate::producers::lemma_rank_pick_is_best(ps, pool, rr);
        lemma_stale_all(ps, pool);
        lemma_remove_ids(pool, pool);
        let r = remove_ids(pool, pool);
        if r.len() > 0 {
            let y = r[0];
            assert(r.contains(y));
            assert(pool.contains(y));
            assert(!pool.contains(y));
        }
        assert(r.len() == 0);
        assert(stale_of(ps, pool) == pool);
    }
}

/// Whether every id of `b` is in `a`.
pub open spec fn within(b: Seq<u64>, a: Seq<u64>) -> bool {
    forall|i: int| 0 <= i < b.len() ==> a.contains(#[trigger] b[i])
}

proof fn lemma_remove_id_shorter(s: Seq<u64>, x: u64)
    requires
        s.contains(x),
    ensures
        remove_id(s, x).len() < s.len(),
    decreases s.len(),
{
    let d = s.drop_last();
    lemma_remove_id(d, x);
    if s.last() != x {
        let j = choose|j: int| 0 <= j < s.len() && s[j] == x;
        assert(j < s.len() - 1);
        assert(d[j] == x);
        lemma_remove_id_shorter(d, x);
    }
}

proof fn lemma_within_of(b: Seq<u64>, a: Seq<u64>)
    requires
        forall|y: u64| b.contains(y) ==> a.contains(y),
    ensures
        within(b, a),
{
    assert forall|i: int| 0 <= i < b.len() implies a.contains(#[trigger] b[i]) by {
        assert(b.contains(b[i]));
    }
}

/// One match of a run: when the ranking picks `pid`, the pool that
/// `next_assignment` leaves holds only members of the old pool, no longer
/// holds `pid`, and is shorter. Without a pick it too holds only members of
/// the old pool. A failed send (`assign_failed`) only takes a producer out,
/// and a sent assignment (`RelayState::assign_sent`) leaves the pool as it is.
pub proof fn lemma_match_step(ps: Seq<ProducerEntry>, pool: Seq<u64>, rr: usize, failed: u64)
    ensures
        within(remove_ids(pool, stale_of(ps, pool)), pool),
        within(remove_id(pool, failed), pool),
        rank_pick(ps, pool, rr) matches Some(pid) ==> ({
            let p1 = remove_id(remove_ids(pool, stale_of(ps, pool)), pid);
            &&& pool.contains(pid)
            &&& !p1.contains(pid)
            &&& within(p1, pool)
            &&& p1.len() < pool.len()
        }),
{
    let stale = stale_of(ps, pool);
    let p0 = remove_ids(pool, stale);
    lemma_remove_ids(pool, stale);
    lemma_within_of(p0, pool);
    lemma_remove_id(pool, failed);
    lemma_within_of(remove_id(pool, failed), pool);
    if let Some(pid) = rank_pick(ps, pool, rr) {
        crate::producers::lemma_rank_pick_is_best(ps, pool, rr);
        let p1 = remove_id(p0, pid);
        lemma_remove_id(p0, pid);
        lemma_within_of(p1, pool);
        let j = choose|j: int| 0 <= j < pool.len() && pool[j] == pid;
        assert(crate::producers::eligible(ps, pool[j]));
        if stale.contains(pid) {
            lemma_stale_members(ps, pool, pid);
        }
        assert(p0.contains(pid));
        lemma_remove_id_shorter(p0, pid);
        lemma_remove_ids_len(pool, stale);
    }
}

proof fn lemma_stale_members(ps: Seq<ProducerEntry>, pool: Seq<u64>, x: u64)
    requires
        stale_of(ps, pool).contains(x),
    ensures
        !eligible(ps, x),
    decreases pool.len(),
{
    let d = pool.drop_last();
    let t = stale_of(ps, d);
    if t.contains(x) {
        lemma_stale_members(ps, d, x);
    } else {
        assert(stale_of(ps, pool) == t.push(pool.last()));
        let j = choose|j: int| 0 <= j < stale_of(ps, pool).len() && stale_of(ps, pool)[j] == x;
        if j < t.len() {
            assert(t[j] == x);
        }
    }
}

proof fn lemma_remove_ids_len(s: Seq<u64>, xs: Seq<u64>)
    ensures
        remove_ids(s, xs).len() <= s.len(),
    decreases xs.len(),
{
    if xs.len() > 0 {
        lemma_remove_ids_len(s, xs.drop_last());
        lemma_remove_id(remove_ids(s, xs.drop_last()), xs.last());
    }
}

proof fn lemma_within_contains(b: Seq<u64>, a: Seq<u64>, y: u64)
    requires
        within(b, a),
        b.contains(y),
    ensures
        a.contains(y),
{
    let u = choose|u: int| 0 <= u < b.len() && b[u] == y;
    assert(a.contains(b[u]));
}

proof fn lemma_within_chain(pools: Seq<Seq<u64>>, i: int, k: int)
    requires
        0 <= i <= k < pools.len(),
        forall|m: int| 0 <= m < pools.len() - 1 ==> within(pools[m + 1], #[trigger] pools[m]),
    ensures
        within(pools[k], pools[i]),
    decreases k - i,
{
    if k > i {
        lemma_within_chain(pools, i, k - 1);
        assert(within(pools[k], pools[k - 1]));
        assert forall|t: int| 0 <= t < pools[k].len() implies pools[i].contains(#[trigger] pools[k][t]) by {
            assert(pools[k - 1].contains(pools[k][t]));
            lemma_within_contains(pools[k - 1], pools[i], pools[k][t]);
        }
    }
}

/// A run of matches pairs each producer at most once: when `pools[m]` is
/// the pool before the `m`-th match, `picks[m]` the producer it picks, and
/// each step leaves a pool within the one before (as `lemma_match_step`
/// shows of every step), the picks are distinct members of the first pool.
/// With the pool shorter after each match, and `lemma_no_pick_empties_pool`,
/// the run ends, and ends only when the queue or the pool is empty.
pub proof fn lemma_run_picks_distinct(pools: Seq<Seq<u64>>, picks: Seq<u64>)
    requires
        pools.len() == picks.len() + 1,
        forall|m: int| 0 <= m < picks.len() ==> (#[trigger] pools[m]).contains(picks[m]) && !pools[m + 1].contains(picks[m]),
        forall|m: int| 0 <= m < pools.len() - 1 ==> within(pools[m + 1], #[trigger] pools[m]),
    ensures
        picks.no_duplicates(),
        forall|m: int| 0 <= m < picks.len() ==> pools[0].contains(#[trigger] picks[m]),
{
    assert forall|m: int| 0 <= m < picks.len() implies pools[0].contains(#[trigger] picks[m]) by {
        lemma_within_chain(pools, 0, m);
        assert(pools[m].contains(picks[m]));
        lemma_within_contains(pools[m], pools[0], picks[m]);
    }
    assert forall|a: int, b: int| 0 <= a < picks.len() && 0 <= b < picks.len() && a != b implies picks[a] != picks[b] by {
        let (i, j) = if a < b { (a, b) } else { (b, a) };
        lemma_within_chain(pools, i + 1, j);
        assert(pools[j].contains(picks[j]));
        lemma_within_contains(pools[j], pools[i + 1], picks[j]);
        assert(pools[i].contains(picks[i]));
        assert(!pools[i + 1].contains(picks[i]));
    }
}

/// The consumer queue and the ready pool, with their round-robin cursors.
///
/// The ready pool is a set of producer ids, held as a `Vec` with no id twice
/// (see `wf`) rather than a `HashSet<u64>`: the pool is walked to rank the
/// candidates and to list the stale ones, and a `HashSet` is walked in an
/// order that its per-process random hasher seed decides, so no contract
/// could say in which order the stale producers come back. The `Vec` keeps
/// them in the order they entered; the ranking itself does not depend on the
/// order (ties go by id, see `rank_pick`).
pub struct Matchmaker {
    ready: Vec<u64>,
    waiting: Vec<PendingConsumer>,
    consumer_rr: usize,
    producer_rr: usize,
}

impl Matchmaker {
    /// The ready pool (no id twice).
    pub closed spec fn pool(&self) -> Seq<u64> {
        self.ready@
    }

    /// The consumers waiting for a match, in queue order.
    pub closed spec fn queue(&self) -> Seq<PendingConsumer> {
        self.waiting@
    }

    /// The consumer queue's round-robin cursor.
    pub closed spec fn consumer_cursor(&self) -> usize {
        self.consumer_rr
    }

    /// The ready pool's round-robin cursor among tied producers.
    pub closed spec fn producer_cursor(&self) -> usize {
        self.producer_rr
    }

    pub closed spec fn wf(&self) -> bool {
        &&& distinct_ids(self.ready@)
        &&& self.producer_rr < usize::MAX
    }

    pub fn new() -> (m: Self)
        ensures
            m.wf(),
            m.pool() == Seq::<u64>::empty(),
            m.queue() == Seq::<PendingConsumer>::empty(),
            m.consumer_cursor() == 0,
            m.producer_cursor() == 0,
    {
        Matchmaker { ready: Vec::new(), waiting: Vec::new(), consumer_rr: 0, producer_rr: 0 }
    }

    /// How many producers stand in the ready pool.
    pub fn ready_pool_len(&self) -> (n: usize)
        ensures
            n == self.pool().len(),
    {
        self.ready.len()
    }

    /// Whether producer `id` stands in the ready pool.
    pub fn ready_contains(&self, id: u64) -> (r: bool)
        ensures
            r == self.pool().contains(id),
    {
        contains_u64(self.ready.as_slice(), id)
    }

    /// Empties the ready pool.
    pub fn clear_ready_pool(&mut self)
        requires
            old(self).wf(),
        ensures
            final(self).wf(),
            final(self).pool() == Seq::<u64>::empty(),
            final(self).queue() == old(self).queue(),
            final(self).consumer_cursor() == old(self).consumer_cursor(),
            final(self).producer_cursor() == old(self).producer_cursor(),
    {
        self.ready.clear();
    }

    /// How many consumers wait for a match.
    pub fn waiting_count(&self) -> (n: usize)
        ensures
            n == self.queue().len(),
    {
        self.waiting.len()
    }

    /// Puts producer `id` in the ready pool.
    pub fn ensure_in_ready_pool(&mut self, id: u64)
        requires
            old(self).wf(),
        ensures
            final(self).wf(),
            final(self).pool() == with_id(old(self).pool(), id),
            final(self).queue() == old(self).queue(),
            final(self).consumer_cursor() == old(self).consumer_cursor(),
            final(self).producer_cursor() == old(self).producer_cursor(),
    {
        if !contains_u64(self.ready.as_slice(), id) {
            self.ready.push(id);
            assert forall|a: int, b: int| 0 <= a < b < self.ready@.len() implies self.ready@[a] != self.ready@[b] by {
                if b == self.ready@.len() - 1 {
                    assert(old(self).ready@[a] == self.ready@[a]);
                }
            }
        }
    }

    /// Takes producer `id` out of the ready pool.
    pub fn remove_from_pool(&mut self, id: u64)
        requires
            old(self).wf(),
        ensures
            final(self).wf(),
            final(self).pool() == remove_id(old(self).pool(), id),
            final(self).queue() == old(self).queue(),
            final(self).consumer_cursor() == old(self).consumer_cursor(),
            final(self).producer_cursor() == old(self).producer_cursor(),
    {
        let ghost s = self.ready@;
        let mut out: Vec<u64> = Vec::new();
        let mut i: usize = 0;
        while i < self.ready.len()
            invariant
                self.ready@ == s,
                i <= s.len(),
                out@ == remove_id(s.take(i as int), id),
            decreases s.len() - i,
        {
            assert(s.take(i + 1).drop_last() =~= s.take(i as int));
            let x = self.ready[i];
            if x != id {
                out.push(x);
            }
            i = i + 1;
        }
        assert(s.take(s.len() as int) =~= s);
        proof {
            lemma_remove_id(s, id);
        }
        self.ready = out;
    }

    /// Takes each of `ids` out of the ready pool.
    fn remove_all_from_pool(&mut self, ids: &Vec<u64>)
        requires
            old(self).wf(),
        ensures
            final(self).wf(),
            final(self).pool() == remove_ids(old(self).pool(), ids@),
            final(self).queue() == old(self).queue(),
            final(self).consumer_cursor() == old(self).consumer_cursor(),
            final(self).producer_cursor() == old(self).producer_cursor(),
    {
        let mut k: usize = 0;
        while k < ids.len()
            invariant
                self.wf(),
                k <= ids@.len(),
                self.pool() == remove_ids(old(self).pool(), ids@.take(k as int)),
                self.queue() == old(self).queue(),
                self.consumer_rr == old(self).consumer_rr,
                self.producer_rr == old(self).producer_rr,
            decreases ids@.len() - k,
        {
            assert(ids@.take(k + 1).drop_last() =~= ids@.take(k as int));
            self.remove_from_pool(ids[k]);
            k = k + 1;
        }
        assert(ids@.take(ids@.len() as int) =~= ids@);
    }

    /// Reconciles the ready pool with the producers (see
    /// `sync_matcher_ready_state`): stale members leave, producers with
    /// backlog that are not busy join.
    pub fn sync_ready_pool(&mut self, producers: &mut ProducerRegistry)
        requires
            old(self).wf(),
            old(producers).wf(),
        ensures
            final(self).wf(),
            final(producers).wf(),
            final(self).pool() == with_ids(
                remove_ids(old(self).pool(), stale_of(old(producers)@, old(self).pool())),
                poolable_ids(old(producers)@),
            ),
            final(producers)@ == old(producers)@.map_values(
                |e: ProducerEntry| crate::producers::synced(e, old(self).pool()),
            ),
            final(producers).next_id() == old(producers).next_id(),
            final(self).queue() == old(self).queue(),
            final(self).consumer_cursor() == old(self).consumer_cursor(),
            final(self).producer_cursor() == old(self).producer_cursor(),
    {
        let (add, remove) = producers.sync_matcher_ready_state(self.ready.as_slice());
        self.remove_all_from_pool(&remove);
        let ghost base = self.pool();
        let mut k: usize = 0;
        while k < add.len()
            invariant
                self.wf(),
                k <= add@.len(),
                self.pool() == with_ids(base, add@.take(k as int)),
                self.queue() == old(self).queue(),
                self.consumer_rr == old(self).consumer_rr,
                self.producer_rr == old(self).producer_rr,
            decreases add@.len() - k,
        {
            assert(add@.take(k + 1).drop_last() =~= add@.take(k as int));
            self.ensure_in_ready_pool(add[k]);
            k = k + 1;
        }
        assert(add@.take(add@.len() as int) =~= add@);
    }

    /// Queues a consumer for a match; an earlier entry of the same consumer
    /// is replaced.
    pub fn push_waiting(&mut self, entry: PendingConsumer)
        requires
            old(self).wf(),
        ensures
            final(self).wf(),
            final(self).queue() == without_waiter(old(self).queue(), entry.consumer_id).push(entry),
            final(self).pool() == old(self).pool(),
            final(self).consumer_cursor() == old(self).consumer_cursor(),
            final(self).producer_cursor() == old(self).producer_cursor(),
    {
        let ghost s = self.waiting@;
        let cid = entry.consumer_id;
        let mut kept: Vec<PendingConsumer> = Vec::new();
        let mut w = Vec::new();
        std::mem::swap(&mut w, &mut self.waiting);
        let mut i: usize = 0;
        let n = w.len();
        while i < n
            invariant
                n == s.len(),
                i <= n,
                w@ == s.subrange(i as int, n as int),
                kept@ == without_waiter(s.take(i as int), cid),
            decreases n - i,
        {
            assert(s.take(i + 1).drop_last() =~= s.take(i as int));
            let p = w.remove(0);
            assert(s.subrange(i + 1, n as int) =~= s.subrange(i as int, n as int).remove(0));
            if p.consumer_id != cid {
                kept.push(p);
            }
            i = i + 1;
        }
        assert(s.take(n as int) =~= s);
        kept.push(entry);
        self.waiting = kept;
    }

    /// Queues consumer `consumer_id`, which asked for `ready` and receives
    /// batches at `data_addr`.
    pub fn enqueue_consumer(&mut self, consumer_id: u64, ready: ReadyRequest, data_addr: String)
        requires
            old(self).wf(),
        ensures
            final(self).wf(),
            final(self).queue() == without_waiter(old(self).queue(), consumer_id).push(
                PendingConsumer { consumer_id, ready, data_addr },
            ),
            final(self).pool() == old(self).pool(),
            final(self).consumer_cursor() == old(self).consumer_cursor(),
            final(self).producer_cursor() == old(self).producer_cursor(),
    {
        self.push_waiting(PendingConsumer { consumer_id, ready, data_addr });
    }

    /// Takes the consumer whose round-robin turn it is (see `rr_position`)
    /// and moves the cursor past it.
    pub fn take_next_waiting(&mut self) -> (r: Option<PendingConsumer>)
        requires
            old(self).wf(),
        ensures
            final(self).wf(),
            final(self).pool() == old(self).pool(),
            final(self).producer_cursor() == old(self).producer_cursor(),
            old(self).queue().len() == 0 ==> r is None && final(self).queue() == old(self).queue()
                && final(self).consumer_cursor() == old(self).consumer_cursor(),
            old(self).queue().len() > 0 ==> {
                let k = rr_position(old(self).consumer_cursor(), old(self).queue().len());
                &&& r == Some(old(self).queue()[k])
                &&& final(self).queue() == old(self).queue().remove(k)
                &&& final(self).consumer_cursor() == (k + 1) % (old(self).queue().len() as int)
            },
    {
        let len = self.waiting.len();
        if len == 0 {
            return None;
        }
        if self.consumer_rr >= len {
            self.consumer_rr = 0;
        }
        let pick = self.consumer_rr;
        self.consumer_rr = (self.consumer_rr + 1) % len;
        Some(self.waiting.remove(pick))
    }

    /// Producer `producer_id` announced backlog: a busy one is freed first
    /// (its delivery report was lost), then it has a pending notice, is
    /// ready, and stands in the pool. A match may follow.
    pub fn on_producer_ready(&mut self, producers: &mut ProducerRegistry, producer_id: u64)
        requires
            old(self).wf(),
            old(producers).wf(),
        ensures
            final(self).wf(),
            final(producers).wf(),
            final(producers)@ == update_id(
                old(producers)@,
                producer_id,
                |e: ProducerEntry| promoted(if e.state == ProducerState::Busy { released(e) } else { e }),
            ),
            final(producers).next_id() == old(producers).next_id(),
            final(self).pool() == with_id(old(self).pool(), producer_id),
            final(self).queue() == old(self).queue(),
            final(self).consumer_cursor() == old(self).consumer_cursor(),
            final(self).producer_cursor() == old(self).producer_cursor(),
    {
        let ghost s0 = producers@;
        proof {
            producers.lemma_ids_unique();
        }
        match producers.state_of(producer_id) {
            Some(ProducerState::Busy) => {
                producers.clear_stale_busy(producer_id, "ready notice while busy");
            },
            Some(ProducerState::Ready) => {
                producers.mark_prdy(producer_id);
                self.ensure_in_ready_pool(producer_id);
                assert(producers@ =~= update_id(
                    s0,
                    producer_id,
                    |e: ProducerEntry| promoted(if e.state == ProducerState::Busy { released(e) } else { e }),
                ));
                return;
            },
            _ => {},
        }
        let ghost s1 = producers@;
        producers.mark_prdy(producer_id);
        self.ensure_in_ready_pool(producer_id);
        producers.set_state(producer_id, ProducerState::Ready);
        assert(producers@ =~= update_id(
            s0,
            producer_id,
            |e: ProducerEntry| promoted(if e.state == ProducerState::Busy { released(e) } else { e }),
        ));
    }

    /// Producer `producer_id` finished its assignment: idle, out of the pool.
    pub fn on_producer_done(&mut self, producers: &mut ProducerRegistry, producer_id: u64)
        requires
            old(self).wf(),
            old(producers).wf(),
        ensures
            final(self).wf(),
            final(producers).wf(),
            final(producers)@ == update_id(old(producers)@, producer_id, |e: ProducerEntry| with_state(e, ProducerState::Idle)),
            final(producers).next_id() == old(producers).next_id(),
            final(self).pool() == remove_id(old(self).pool(), producer_id),
            final(self).queue() == old(self).queue(),
            final(self).consumer_cursor() == old(self).consumer_cursor(),
            final(self).producer_cursor() == old(self).producer_cursor(),
    {
        producers.set_state(producer_id, ProducerState::Idle);
        self.remove_from_pool(producer_id);
    }

    /// Producer `producer_id` may have backlog: it joins the pool.
    pub fn wake_producer(&mut self, producer_id: u64)
        requires
            old(self).wf(),
        ensures
            final(self).wf(),
            final(self).pool() == with_id(old(self).pool(), producer_id),
            final(self).queue() == old(self).queue(),
            final(self).consumer_cursor() == old(self).consumer_cursor(),
            final(self).producer_cursor() == old(self).producer_cursor(),
    {
        self.ensure_in_ready_pool(producer_id);
    }

    /// Producer `producer_id` disconnected: it leaves the pool and the
    /// registry, and the consumer of its assignment in flight, if that one
    /// still waits (for the match or the batch), is queued again.
    pub fn on_producer_disconnect(
        &mut self,
        producers: &mut ProducerRegistry,
        consumers: &mut ConsumerRegistry,
        producer_id: u64,
    )
        requires
            old(self).wf(),
            old(producers).wf(),
            old(consumers).wf(),
        ensures
            final(self).wf(),
            final(producers).wf(),
            final(consumers).wf(),
            final(self).pool() == remove_id(old(self).pool(), producer_id),
            final(producers)@ == crate::producers::without(old(producers)@, producer_id),
            final(producers).next_id() == old(producers).next_id(),
            final(consumers).next_id() == old(consumers).next_id(),
            final(self).consumer_cursor() == old(self).consumer_cursor(),
            final(self).producer_cursor() == old(self).producer_cursor(),
            ({
                let requeue = match lookup(old(producers)@, producer_id) {
                    Some(pe) => match pe.pending_consumer_id {
                        Some(c) => match find_consumer(old(consumers)@, c) {
                            Some(ce) => ce.state == ConsumerPhase::AwaitingBatch || ce.state == ConsumerPhase::MatcherQueue,
                            None => false,
                        },
                        None => false,
                    },
                    None => false,
                };
                if requeue {
                    let c = lookup(old(producers)@, producer_id).unwrap().pending_consumer_id.unwrap();
                    let ce = find_consumer(old(consumers)@, c).unwrap();
                    &&& final(self).queue() == without_waiter(old(self).queue(), c).push(requeued(c, ce))
                    &&& final(consumers)@ == crate::consumers::update_consumer(
                        old(consumers)@,
                        c,
                        |e: crate::consumers::ConsumerEntry| crate::consumers::ConsumerEntry {
                            state: ConsumerPhase::MatcherQueue,
                            assigned_producer_id: None,
                            ..e
                        },
                    )
                    &&& final(consumers).awaiting() == match ce.assigned_producer_id {
                        Some(p) => old(consumers).awaiting().remove((p, c)),
                        None => old(consumers).awaiting(),
                    }
                } else {
                    &&& final(self).queue() == old(self).queue()
                    &&& final(consumers)@ == old(consumers)@
                    &&& final(consumers).awaiting() == old(consumers).awaiting()
                }
            }),
    {
        self.remove_from_pool(producer_id);
        let consumer_id = producers.take_pending_consumer(producer_id);
        if let Some(cid) = consumer_id {
            let state = consumers.state_of(cid);
            let should_requeue = match state {
                Some(ConsumerPhase::AwaitingBatch) => true,
                Some(ConsumerPhase::MatcherQueue) => true,
                _ => false,
            };
            if should_requeue {
                if let Some((ready, data_addr)) = consumers.match_context(cid) {
                    consumers.set_phase(cid, ConsumerPhase::MatcherQueue);
                    self.push_waiting(PendingConsumer { consumer_id: cid, ready, data_addr });
                }
            }
        }
        let ghost mid = producers@;
        producers.remove(producer_id);
        proof {
            lemma_without_after_update(old(producers)@, producer_id);
        }
    }

    /// Consumer `consumer_id` disconnected: its first queue entry is taken
    /// out (the last entry takes its place) and returned, and producers
    /// whose assignment was for it are freed; the flag says whether any
    /// was, so that a match may follow.
    pub fn cancel_consumer(&mut self, producers: &mut ProducerRegistry, consumer_id: u64) -> (r: (Option<PendingConsumer>, bool))
        requires
            old(self).wf(),
            old(producers).wf(),
        ensures
            final(self).wf(),
            final(producers).wf(),
            ({
                let q = old(self).queue();
                let k = waiter_index(q, consumer_id);
                if k < q.len() {
                    r.0 == Some(q[k]) && final(self).queue() == q.update(k, q.last()).drop_last()
                } else {
                    r.0 is None && final(self).queue() == q
                }
            }),
            r.1 == (crate::producers::count_assigned(old(producers)@, consumer_id) > 0),
            final(producers)@ == old(producers)@.map_values(
                |e: ProducerEntry| crate::producers::unassigned(e, consumer_id),
            ),
            final(producers).next_id() == old(producers).next_id(),
            final(self).pool() == old(self).pool(),
            final(self).consumer_cursor() == old(self).consumer_cursor(),
            final(self).producer_cursor() == old(self).producer_cursor(),
    {
        let ghost q = self.waiting@;
        let mut i: usize = 0;
        while i < self.waiting.len() && self.waiting[i].consumer_id != consumer_id
            invariant
                self.waiting@ == q,
                i <= q.len(),
                forall|j: int| 0 <= j < i ==> q[j].consumer_id != consumer_id,
            decreases q.len() - i,
        {
            i = i + 1;
        }
        proof {
            lemma_waiter_index(q, consumer_id, i as int);
        }
        let pending = if i < self.waiting.len() {
            Some(self.waiting.swap_remove(i))
        } else {
            None
        };
        let cleared = producers.clear_assignments_to_consumer(consumer_id);
        (pending, cleared > 0)
    }

    /// Makes the next match, if there is one: ranks the ready pool (stale
    /// members leave it), takes the best producer out of the pool and the
    /// consumer whose turn it is out of the queue, and builds the
    /// assignment. Nothing happens when either side is empty. When the
    /// consumer's fields do not fit an assignment the error is returned and
    /// both stay taken out.
    pub fn next_assignment(&mut self, producers: &mut ProducerRegistry) -> (r: Result<Option<Assignment>, ProtocolError>)
        requires
            old(self).wf(),
            old(producers).wf(),
        ensures
            final(self).wf(),
            final(producers).wf(),
            final(producers).next_id() == old(producers).next_id(),
            old(self).queue().len() == 0 || old(self).pool().len() == 0 ==> {
                &&& r == Ok::<Option<Assignment>, ProtocolError>(None)
                &&& final(self).pool() == old(self).pool()
                &&& final(self).queue() == old(self).queue()
                &&& final(self).consumer_cursor() == old(self).consumer_cursor()
                &&& final(self).producer_cursor() == old(self).producer_cursor()
                &&& final(producers)@ == old(producers)@
            },
            old(self).queue().len() > 0 && old(self).pool().len() > 0 ==> {
                let ps = old(producers)@;
                let pool = old(self).pool();
                let q = old(self).queue();
                let stale = stale_of(ps, pool);
                &&& final(producers)@ == ps.map_values(|e: ProducerEntry| crate::producers::demoted(e, pool))
                &&& final(self).producer_cursor() == rank_next_rr(ps, pool, old(self).producer_cursor())
                &&& match rank_pick(ps, pool, old(self).producer_cursor()) {
                    None => {
                        &&& r == Ok::<Option<Assignment>, ProtocolError>(None)
                        &&& final(self).pool() == remove_ids(pool, stale)
                        &&& final(self).queue() == q
                        &&& final(self).consumer_cursor() == old(self).consumer_cursor()
                    },
                    Some(pid) => {
                        let k = rr_position(old(self).consumer_cursor(), q.len());
                        let c = q[k];
                        let t = utf8(c.ready.consumer_tag@);
                        let d = utf8(c.data_addr@);
                        &&& final(self).pool() == remove_id(remove_ids(pool, stale), pid)
                        &&& final(self).queue() == q.remove(k)
                        &&& final(self).consumer_cursor() == (k + 1) % (q.len() as int)
                        &&& (t.len() > 65535 || d.len() == 0 || d.len() > 65535) ==> r == Err::<Option<Assignment>, ProtocolError>(ProtocolError::InvalidAssignFieldLen)
                        &&& !(t.len() > 65535 || d.len() == 0 || d.len() > 65535) ==> (r matches Ok(Some(a))
                            && a.producer_id == pid && a.consumer == c
                            && a.frame@ == assign_frame(c.ready.max_items, t, d))
                    },
                }
            },
    {
        if self.waiting.len() == 0 || self.ready.len() == 0 {
            return Ok(None);
        }
        let mut rr = self.producer_rr;
        let n = self.ready.len();
        proof {
            let w = best_weight(producers@, self.ready@);
            crate::producers::lemma_tier_len(producers@, self.ready@, w);
        }
        let (best, stale) = producers.rank_ready_candidates(self.ready.as_slice(), &mut rr);
        self.producer_rr = rr;
        self.remove_all_from_pool(&stale);
        let producer_id = match best {
            None => {
                return Ok(None);
            },
            Some(p) => p,
        };
        self.remove_from_pool(producer_id);
        let consumer = match self.take_next_waiting() {
            Some(c) => c,
            None => {
                return Ok(None);
            },
        };
        let assign = AssignRequest {
            max_items: consumer.ready.max_items,
            consumer_tag: consumer.ready.consumer_tag.clone(),
            data_addr: consumer.data_addr.clone(),
        };
        let frame = match encode_assign(&assign) {
            Ok(f) => f,
            Err(e) => {
                return Err(e);
            },
        };
        Ok(Some(Assignment { producer_id, consumer, frame }))
    }

    /// Sending the assignment to `producer_id` failed: the producer goes
    /// idle and out of the pool, and the consumer waits again at the end of
    /// the queue.
    pub fn assign_failed(&mut self, producers: &mut ProducerRegistry, producer_id: u64, consumer: PendingConsumer)
        requires
            old(self).wf(),
            old(producers).wf(),
        ensures
            final(self).wf(),
            final(producers).wf(),
            final(producers)@ == update_id(old(producers)@, producer_id, |e: ProducerEntry| with_state(e, ProducerState::Idle)),
            final(producers).next_id() == old(producers).next_id(),
            final(self).pool() == remove_id(old(self).pool(), producer_id),
            final(self).queue() == old(self).queue().push(consumer),
            final(self).consumer_cursor() == old(self).consumer_cursor(),
            final(self).producer_cursor() == old(self).producer_cursor(),
    {
        producers.set_state(producer_id, ProducerState::Idle);
        self.remove_from_pool(producer_id);
        self.waiting.push(consumer);
    }
}

} // verus!
