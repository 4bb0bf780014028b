//! The master's record of connected consumers: where each one receives
//! batches, where it is in its fetch cycle, and which producer's assignment
//! it awaits. Beside the entries stands an index of the (producer,
//! consumer) pairs awaiting a batch, so that a producer's new assignment can
//! release the consumers still waiting on its previous one.

use crate::clock::now_secs;
use crate::protocol::ReadyRequest;
use crate::text::push_decimal;
use crate::text::decimal;
use crate::producers::contains_u64;
use vstd::prelude::*;

verus! {

/// Where a consumer is in its fetch cycle.
#[derive(Debug, Clone, Copy, PartialEq, Eq, Structural)]
pub enum ConsumerPhase {
    Idle,
    /// Asked for a batch; waits for a match.
    MatcherQueue,
    /// Matched; waits for the producer's batch.
    AwaitingBatch,
    /// Received a batch; processes it.
    Processing,
    /// The producer failed to deliver.
    DeliveryFailed,
}

pub open spec fn phase_name(p: ConsumerPhase) -> Seq<char> {
    match p {
        ConsumerPhase::Idle => "idle"@,
        ConsumerPhase::MatcherQueue => "matcher_queue"@,
        ConsumerPhase::AwaitingBatch => "awaiting_batch"@,
        ConsumerPhase::Processing => "processing"@,
        ConsumerPhase::DeliveryFailed => "delivery_failed"@,
    }
}

impl ConsumerPhase {
    /// The phase's name as the metrics show it.
    pub fn as_str(&self) -> (r: &'static str)
        ensures
            r@ == phase_name(*self),
    {
        match self {
            ConsumerPhase::Idle => "idle",
            ConsumerPhase::MatcherQueue => "matcher_queue",
            ConsumerPhase::AwaitingBatch => "awaiting_batch",
            ConsumerPhase::Processing => "processing",
            ConsumerPhase::DeliveryFailed => "delivery_failed",
        }
    }
}

/// What the master knows of one consumer.
#[derive(Debug, Clone)]
pub struct ConsumerEntry {
    pub id: u64,
    pub consumer_tag: String,
    pub addr: String,
    pub data_addr: String,
    /// Seconds since the Unix epoch at registration.
    pub connected_at: u64,
    pub rate_batches: u64,
    pub rate_bytes: u64,
    pub unacked: u64,
    pub last_batch_items: u64,
    pub last_batch_bytes: u64,
    pub state: ConsumerPhase,
    pub max_batch_requested: u16,
    /// Unix milliseconds of the last delivered batch (0: none yet).
    pub last_batch_delivered_ms: u64,
    pub assigned_producer_id: Option<u64>,
}

/// The entry with id `id`, if any.
pub open spec fn find_consumer(s: Seq<ConsumerEntry>, id: u64) -> Option<ConsumerEntry>
    decreases s.len(),
{
    if s.len() == 0 {
        None
    } else if s.last().id == id {
        Some(s.last())
    } else {
        find_consumer(s.drop_last(), id)
    }
}

/// `s` without the entry with id `id`.
pub open spec fn without_consumer(s: Seq<ConsumerEntry>, id: u64) -> Seq<ConsumerEntry>
    decreases s.len(),
{
    if s.len() == 0 {
        s
    } else if s.last().id == id {
        without_consumer(s.drop_last(), id)
    } else {
        without_consumer(s.drop_last(), id).push(s.last())
    }
}

/// `s` with `f` applied to the entry with id `id`.
pub open spec fn update_consumer(s: Seq<ConsumerEntry>, id: u64, f: spec_fn(ConsumerEntry) -> ConsumerEntry) -> Seq<ConsumerEntry> {
    s.map_values(|e: ConsumerEntry| if e.id == id { f(e) } else { e })
}

pub open spec fn consumer_ids_increasing(s: Seq<ConsumerEntry>) -> bool {
    forall|a: int, b: int| 0 <= a < b < s.len() ==> s[a].id < s[b].id
}

/// The pairs a list holds, as a set.
pub open spec fn pair_set(s: Seq<(u64, u64)>) -> Set<(u64, u64)>
    decreases s.len(),
{
    if s.len() == 0 {
        Set::empty()
    } else {
        pair_set(s.drop_last()).insert(s.last())
    }
}

/// A batch arrived: counted, and the consumer processes it.
pub open spec fn delivered(e: ConsumerEntry, msg_count: u64, batch_bytes: u64, ts_ms: u64) -> ConsumerEntry {
    ConsumerEntry {
        rate_batches: e.rate_batches.wrapping_add(1),
        rate_bytes: e.rate_bytes.wrapping_add(batch_bytes),
        unacked: msg_count,
        last_batch_items: msg_count,
        last_batch_bytes: batch_bytes,
        last_batch_delivered_ms: ts_ms,
        assigned_producer_id: None,
        state: ConsumerPhase::Processing,
        ..e
    }
}

/// The time since the last delivery, when there was one before `ts_ms`.
pub open spec fn cycle_sample(e: ConsumerEntry, ts_ms: u64) -> Option<u64> {
    if e.last_batch_delivered_ms > 0 && ts_ms > e.last_batch_delivered_ms {
        Some((ts_ms - e.last_batch_delivered_ms) as u64)
    } else {
        None
    }
}

/// `v`, or 1 when `v` is 0.
pub open spec fn at_least_one_u16(v: u16) -> u16 {
    if v < 1 { 1 } else { v }
}

proof fn lemma_find_at(s: Seq<ConsumerEntry>, i: int)
    requires
        consumer_ids_increasing(s),
        0 <= i < s.len(),
    ensures
        find_consumer(s, s[i].id) == Some(s[i]),
    decreases s.len(),
{
    if i < s.len() - 1 {
        lemma_find_at(s.drop_last(), i);
    }
}

proof fn lemma_find_none(s: Seq<ConsumerEntry>, id: u64)
    requires
        forall|j: int| 0 <= j < s.len() ==> s[j].id != id,
    ensures
        find_consumer(s, id) is None,
    decreases s.len(),
{
    if s.len() > 0 {
        lemma_find_none(s.drop_last(), id);
    }
}

proof fn lemma_without_at(s: Seq<ConsumerEntry>, i: int)
    requires
        consumer_ids_increasing(s),
        0 <= i < s.len(),
    ensures
        without_consumer(s, s[i].id) == s.remove(i),
    decreases s.len(),
{
    if i == s.len() - 1 {
        lemma_without_none(s.drop_last(), s[i].id);
        assert(s.remove(i) =~= s.drop_last());
    } else {
        lemma_without_at(s.drop_last(), i);
        assert(s.remove(i) =~= s.drop_last().remove(i).push(s.last()));
    }
}

proof fn lemma_without_none(s: Seq<ConsumerEntry>, id: u64)
    requires
        forall|j: int| 0 <= j < s.len() ==> s[j].id != id,
    ensures
        without_consumer(s, id) == s,
    decreases s.len(),
{
    if s.len() > 0 {
        lemma_without_none(s.drop_last(), id);
        assert(s.drop_last().push(s.last()) =~= s);
    }
}

proof fn lemma_pair_set_contains(s: Seq<(u64, u64)>, p: (u64, u64))
    ensures
        pair_set(s).contains(p) <==> s.contains(p),
    decreases s.len(),
{
    if s.len() > 0 {
        lemma_pair_set_contains(s.drop_last(), p);
        if s.drop_last().contains(p) {
            let j = choose|j: int| 0 <= j < s.drop_last().len() && s.drop_last()[j] == p;
            assert(s[j] == p);
        }
        if s.contains(p) && s.last() != p {
            let j = choose|j: int| 0 <= j < s.len() && s[j] == p;
            assert(s.drop_last()[j] == p);
        }
    }
}

proof fn lemma_same_id(s: Seq<ConsumerEntry>, i: int, x: ConsumerEntry, next: u64)
    requires
        0 <= i < s.len(),
        x.id == s[i].id,
    ensures
        consumer_ids_increasing(s) ==> consumer_ids_increasing(s.update(i, x)),
        (forall|j: int| 0 <= j < s.len() ==> 1 <= #[trigger] s[j].id < next) ==> (forall|j: int| 0 <= j < s.len() ==> 1 <= #[trigger] s.update(i, x)[j].id < next),
{
    assert forall|j: int| 0 <= j < s.len() implies s.update(i, x)[j].id == s[j].id by {
        if j == i {
        }
    }
}

/// The sum of the unacknowledged counts.
pub open spec fn unacked_sum(s: Seq<ConsumerEntry>) -> nat
    decreases s.len(),
{
    if s.len() == 0 {
        0
    } else {
        unacked_sum(s.drop_last()) + s.last().unacked as nat
    }
}

proof fn lemma_unacked_prefix(s: Seq<ConsumerEntry>, i: int)
    requires
        0 <= i <= s.len(),
    ensures
        unacked_sum(s.take(i)) <= unacked_sum(s),
    decreases s.len() - i,
{
    if i < s.len() {
        lemma_unacked_prefix(s, i + 1);
        assert(s.take(i + 1).drop_last() =~= s.take(i));
    } else {
        assert(s.take(i) =~= s);
    }
}

/// The consumers after producer `pid` was assigned to `keep`: every other
/// consumer that awaits `pid`'s batch (by the index `a`) and is in the
/// awaiting phase goes back to idle without an assignment.
pub open spec fn stale_released(s: Seq<ConsumerEntry>, a: Set<(u64, u64)>, pid: u64, keep: u64) -> Seq<ConsumerEntry> {
    s.map_values(
        |e: ConsumerEntry| if a.contains((pid, e.id)) && e.id != keep && e.state == ConsumerPhase::AwaitingBatch {
            ConsumerEntry { assigned_producer_id: None, state: ConsumerPhase::Idle, ..e }
        } else {
            e
        },
    )
}

/// The index without `pid`'s pairs other than the one with `keep`.
pub open spec fn stale_pairs_dropped(a: Set<(u64, u64)>, pid: u64, keep: u64) -> Set<(u64, u64)> {
    a.filter(|p: (u64, u64)| !(p.0 == pid && p.1 != keep))
}

/// What a lookup finds has the id looked for.
pub proof fn lemma_find_id(s: Seq<ConsumerEntry>, x: u64)
    ensures
        find_consumer(s, x) matches Some(e) ==> e.id == x,
    decreases s.len(),
{
    if s.len() > 0 {
        lemma_find_id(s.drop_last(), x);
    }
}

/// Looking up an entry after an id-preserving change to entry `id`.
pub proof fn lemma_find_update(s: Seq<ConsumerEntry>, id: u64, f: spec_fn(ConsumerEntry) -> ConsumerEntry, x: u64)
    requires
        forall|e: ConsumerEntry| #[trigger] f(e).id == e.id,
    ensures
        find_consumer(update_consumer(s, id, f), x) == match find_consumer(s, x) {
            Some(e) => Some(if e.id == id { f(e) } else { e }),
            None => None,
        },
    decreases s.len(),
{
    if s.len() > 0 {
        let u = update_consumer(s, id, f);
        assert(u.drop_last() =~= update_consumer(s.drop_last(), id, f));
        lemma_find_update(s.drop_last(), id, f, x);
        assert(u.last() == if s.last().id == id { f(s.last()) } else { s.last() });
    }
}

/// Looking up an entry after `stale_released`.
pub proof fn lemma_find_stale_released(s: Seq<ConsumerEntry>, a: Set<(u64, u64)>, pid: u64, keep: u64, x: u64)
    ensures
        find_consumer(stale_released(s, a, pid, keep), x) == match find_consumer(s, x) {
            Some(e) => Some(if a.contains((pid, e.id)) && e.id != keep && e.state == ConsumerPhase::AwaitingBatch {
                ConsumerEntry { assigned_producer_id: None, state: ConsumerPhase::Idle, ..e }
            } else {
                e
            }),
            None => None,
        },
    decreases s.len(),
{
    if s.len() > 0 {
        let u = stale_released(s, a, pid, keep);
        assert(u.drop_last() =~= stale_released(s.drop_last(), a, pid, keep));
        lemma_find_stale_released(s.drop_last(), a, pid, keep, x);
    }
}

/// What `mark_awaiting_batch(c, pid)` leaves, as long as nothing else
/// changes consumer `c`: the pair is indexed and `c` awaits `pid`'s batch.
pub open spec fn marked_awaiting(s: Seq<ConsumerEntry>, a: Set<(u64, u64)>, c: u64, pid: u64) -> bool {
    &&& a.contains((pid, c))
    &&& find_consumer(s, c) matches Some(e) && e.state == ConsumerPhase::AwaitingBatch
        && e.assigned_producer_id == Some(pid)
}

/// `mark_awaiting_batch(c, pid)` leaves a registered `c` marked, and keeps
/// every other consumer's mark: marks made one after another all hold.
pub proof fn lemma_mark_keeps_marks(s: Seq<ConsumerEntry>, a: Set<(u64, u64)>, c: u64, pid: u64, c2: u64, p2: u64)
    ensures
        ({
            let s1 = update_consumer(s, c, |e: ConsumerEntry| ConsumerEntry {
                assigned_producer_id: Some(pid),
                state: ConsumerPhase::AwaitingBatch,
                ..e
            });
            let a1 = a.insert((pid, c));
            &&& find_consumer(s, c) is Some ==> marked_awaiting(s1, a1, c, pid)
            &&& (c2 != c && marked_awaiting(s, a, c2, p2)) ==> marked_awaiting(s1, a1, c2, p2)
        }),
{
    let f = |e: ConsumerEntry| ConsumerEntry { assigned_producer_id: Some(pid), state: ConsumerPhase::AwaitingBatch, ..e };
    lemma_find_update(s, c, f, c);
    lemma_find_update(s, c, f, c2);
    lemma_find_id(s, c);
    lemma_find_id(s, c2);
}

/// Releasing `pid`'s stale assignments: every consumer marked as awaiting
/// `pid`'s batch is left idle with no producer, unless it is `keep`; `keep`
/// and every consumer with no pair with `pid` in the index stay as they were.
pub proof fn lemma_release_marked(s: Seq<ConsumerEntry>, a: Set<(u64, u64)>, pid: u64, keep: u64, x: u64)
    ensures
        (marked_awaiting(s, a, x, pid) && x != keep) ==> (find_consumer(stale_released(s, a, pid, keep), x) matches Some(e)
            && e.state == ConsumerPhase::Idle && e.assigned_producer_id is None),
        (!a.contains((pid, x)) || x == keep) ==> find_consumer(stale_released(s, a, pid, keep), x) == find_consumer(s, x),
{
    lemma_find_stale_released(s, a, pid, keep, x);
    lemma_find_id(s, x);
}

/// `s1` is `s0` after consumer `id` began a fetch cycle asking for
/// `max_items` under `tag`: no batch in flight, at least one item asked for,
/// nothing unacknowledged, waiting for a match, and tagged `tag` unless it is
/// empty; the other entries are unchanged.
pub open spec fn cycle_begun(s0: Seq<ConsumerEntry>, s1: Seq<ConsumerEntry>, id: u64, max_items: u16, tag: Seq<char>) -> bool {
    &&& s1.len() == s0.len()
    &&& forall|j: int| 0 <= j < s0.len() ==> #[trigger] s1[j] == if s0[j].id == id {
        ConsumerEntry {
            assigned_producer_id: None,
            max_batch_requested: at_least_one_u16(max_items),
            unacked: 0,
            state: ConsumerPhase::MatcherQueue,
            consumer_tag: s1[j].consumer_tag,
            ..s0[j]
        }
    } else {
        s0[j]
    }
    &&& forall|j: int| 0 <= j < s0.len() && s0[j].id == id ==> if tag.len() == 0 {
        #[trigger] s1[j].consumer_tag == s0[j].consumer_tag
    } else {
        s1[j].consumer_tag@ == tag
    }
}

/// How many consumers are in a phase that `p` accepts.
pub open spec fn count_phase(s: Seq<ConsumerEntry>, p: spec_fn(ConsumerPhase) -> bool) -> nat
    decreases s.len(),
{
    if s.len() == 0 {
        0
    } else {
        count_phase(s.drop_last(), p) + if p(s.last().state) { 1nat } else { 0nat }
    }
}

proof fn lemma_count_phase_le(s: Seq<ConsumerEntry>, p: spec_fn(ConsumerPhase) -> bool)
    ensures
        count_phase(s, p) <= s.len(),
    decreases s.len(),
{
    if s.len() > 0 {
        lemma_count_phase_le(s.drop_last(), p);
    }
}

/// The consumers and the index of who awaits whom.
///
/// Entries are kept in a `Vec` in increasing id order (see `wf`) rather
/// than a `HashMap<u64, _>`: several operations walk all consumers, and a
/// `HashMap` is walked in an order that its per-process random hasher seed
/// decides, which no contract could name.
pub struct ConsumerRegistry {
    next_id: u64,
    entries: Vec<ConsumerEntry>,
    awaiting: Vec<(u64, u64)>,
}

impl View for ConsumerRegistry {
    type V = Seq<ConsumerEntry>;

    /// The consumers, in the order of their ids.
    closed spec fn view(&self) -> Seq<ConsumerEntry> {
        self.entries@
    }
}

impl ConsumerRegistry {
    /// The id the next registration gets.
    pub closed spec fn next_id(&self) -> u64 {
        self.next_id
    }

    /// The (producer, consumer) pairs where the consumer awaits a batch
    /// from the producer.
    pub closed spec fn awaiting(&self) -> Set<(u64, u64)> {
        pair_set(self.awaiting@)
    }

    pub closed spec fn wf(&self) -> bool {
        &&& consumer_ids_increasing(self.entries@)
        &&& forall|i: int| 0 <= i < self.entries@.len() ==> 1 <= #[trigger] self.entries@[i].id < self.next_id
        &&& self.next_id >= 1
    }

    pub fn new() -> (r: Self)
        ensures
            r.wf(),
            r@ == Seq::<ConsumerEntry>::empty(),
            r.awaiting() == Set::<(u64, u64)>::empty(),
            r.next_id() == 1,
    {
        ConsumerRegistry { next_id: 1, entries: Vec::new(), awaiting: Vec::new() }
    }

    /// The index of the entry with id `id`.
    fn find(&self, id: u64) -> (r: Option<usize>)
        requires
            self.wf(),
        ensures
            match r {
                Some(i) => i < self@.len() && self@[i as int].id == id && find_consumer(self@, id) == Some(self@[i as int]),
                None => find_consumer(self@, id) is None && forall|j: int| 0 <= j < self@.len() ==> self@[j].id != id,
            },
    {
        let mut i: usize = 0;
        while i < self.entries.len()
            invariant
                self.wf(),
                i <= self.entries@.len(),
                forall|j: int| 0 <= j < i ==> self.entries@[j].id != id,
            decreases self.entries@.len() - i,
        {
            if self.entries[i].id == id {
                proof {
                    lemma_find_at(self.entries@, i as int);
                }
                return Some(i);
            }
            i = i + 1;
        }
        proof {
            lemma_find_none(self.entries@, id);
        }
        None
    }

    /// The entry with id `id`.
    pub fn entry(&self, id: u64) -> (r: Option<&ConsumerEntry>)
        requires
            self.wf(),
        ensures
            match r {
                Some(e) => find_consumer(self@, id) == Some(*e),
                None => find_consumer(self@, id) is None,
            },
    {
        match self.find(id) {
            Some(i) => Some(&self.entries[i]),
            None => None,
        }
    }

    /// The ids of all consumers, in increasing order.
    pub fn ids(&self) -> (r: Vec<u64>)
        ensures
            r@ == self@.map_values(|e: ConsumerEntry| e.id),
    {
        let mut out: Vec<u64> = Vec::new();
        let mut i: usize = 0;
        while i < self.entries.len()
            invariant
                i <= self.entries@.len(),
                out@ == self.entries@.take(i as int).map_values(|e: ConsumerEntry| e.id),
            decreases self.entries@.len() - i,
        {
            out.push(self.entries[i].id);
            i = i + 1;
            assert(out@ =~= self.entries@.take(i as int).map_values(|e: ConsumerEntry| e.id));
        }
        assert(self.entries@.take(i as int) =~= self.entries@);
        out
    }

    /// Notes that consumer `consumer_id` awaits a batch from `producer_id`.
    fn track_awaiting(&mut self, producer_id: u64, consumer_id: u64)
        ensures
            final(self).awaiting() == old(self).awaiting().insert((producer_id, consumer_id)),
            final(self).entries == old(self).entries,
            final(self).next_id == old(self).next_id,
    {
        let mut i: usize = 0;
        while i < self.awaiting.len()
            invariant
                i <= self.awaiting@.len(),
                forall|j: int| 0 <= j < i ==> self.awaiting@[j] != (producer_id, consumer_id),
            decreases self.awaiting@.len() - i,
        {
            let (p, c) = self.awaiting[i];
            if p == producer_id && c == consumer_id {
                proof {
                    lemma_pair_set_contains(self.awaiting@, (producer_id, consumer_id));
                }
                assert(self.awaiting() =~= old(self).awaiting().insert((producer_id, consumer_id)));
                return;
            }
            i = i + 1;
        }
        self.awaiting.push((producer_id, consumer_id));
        assert(self.awaiting@.drop_last() =~= old(self).awaiting@);
    }

    /// Drops the pairs of producer `producer_id` whose consumer `keep_pair`
    /// says to drop.
    fn drop_pairs(&mut self, producer_id: u64, consumer: Option<u64>, keep_consumer: u64)
        ensures
            final(self).awaiting() == old(self).awaiting().filter(
                |p: (u64, u64)| !(p.0 == producer_id && match consumer {
                    Some(c) => p.1 == c,
                    None => p.1 != keep_consumer,
                }),
            ),
            final(self).entries == old(self).entries,
            final(self).next_id == old(self).next_id,
    {
        let ghost keep = |p: (u64, u64)| !(p.0 == producer_id && match consumer {
            Some(c) => p.1 == c,
            None => p.1 != keep_consumer,
        });
        let ghost s = self.awaiting@;
        let mut out: Vec<(u64, u64)> = Vec::new();
        let mut i: usize = 0;
        while i < self.awaiting.len()
            invariant
                self.awaiting@ == s,
                i <= s.len(),
                keep == (|p: (u64, u64)| !(p.0 == producer_id && match consumer {
                    Some(c) => p.1 == c,
                    None => p.1 != keep_consumer,
                })),
                pair_set(out@) == pair_set(s.take(i as int)).filter(keep),
            decreases s.len() - i,
        {
            let (p, c) = self.awaiting[i];
            let hit = p == producer_id && match consumer {
                Some(x) => c == x,
                None => c != keep_consumer,
            };
            assert(s.take(i + 1).drop_last() =~= s.take(i as int));
            assert(s.take(i + 1).last() == (p, c));
            let ghost before = out@;
            if !hit {
                out.push((p, c));
                assert(out@.drop_last() =~= before);
            }
            assert(pair_set(out@) =~= pair_set(s.take(i + 1)).filter(keep));
            i = i + 1;
        }
        assert(s.take(s.len() as int) =~= s);
        self.awaiting = out;
    }

    /// Registers a consumer connected at `now_secs` that receives batches at
    /// `data_addr`; it is tagged `consumer-<id>` until it names itself.
    pub fn register_at(&mut self, addr: String, data_addr: String, now_secs: u64) -> (id: u64)
        requires
            old(self).wf(),
            old(self).next_id() < u64::MAX,
        ensures
            final(self).wf(),
            id == old(self).next_id(),
            final(self).next_id() == id + 1,
            find_consumer(old(self)@, id) is None,
            final(self).awaiting() == old(self).awaiting(),
            final(self)@.drop_last() == old(self)@,
            final(self)@.len() == old(self)@.len() + 1,
            final(self)@.last() == (ConsumerEntry {
                id,
                consumer_tag: final(self)@.last().consumer_tag,
                addr,
                data_addr,
                connected_at: now_secs,
                rate_batches: 0,
                rate_bytes: 0,
                unacked: 0,
                last_batch_items: 0,
                last_batch_bytes: 0,
                state: ConsumerPhase::Idle,
                max_batch_requested: 0,
                last_batch_delivered_ms: 0,
                assigned_producer_id: None,
            }),
            final(self)@.last().consumer_tag@ == "consumer-"@ + decimal(id as nat),
    {
        let id = self.next_id;
        proof {
            lemma_find_none(self.entries@, id);
        }
        self.next_id = self.next_id + 1;
        let mut tag = "consumer-".to_owned();
        push_decimal(&mut tag, id);
        self.entries.push(ConsumerEntry {
            id,
            consumer_tag: tag,
            addr,
            data_addr,
            connected_at: now_secs,
            rate_batches: 0,
            rate_bytes: 0,
            unacked: 0,
            last_batch_items: 0,
            last_batch_bytes: 0,
            state: ConsumerPhase::Idle,
            max_batch_requested: 0,
            last_batch_delivered_ms: 0,
            assigned_producer_id: None,
        });
        assert(self.entries@.drop_last() =~= old(self).entries@);
        id
    }

    /// Registers a consumer connected now.
    /// Whether another id can be handed out (`register` requires it).
    pub fn can_register(&self) -> (r: bool)
        ensures
            r == (self.next_id() < u64::MAX),
    {
        self.next_id < 0xFFFF_FFFF_FFFF_FFFFu64
    }

    pub fn register(&mut self, addr: String, data_addr: String) -> (id: u64)
        requires
            old(self).wf(),
            old(self).next_id() < u64::MAX,
        ensures
            final(self).wf(),
            id == old(self).next_id(),
            final(self).next_id() == id + 1,
            final(self).awaiting() == old(self).awaiting(),
            final(self)@.drop_last() == old(self)@,
            final(self)@.len() == old(self)@.len() + 1,
            final(self)@.last() == (ConsumerEntry {
                id,
                consumer_tag: final(self)@.last().consumer_tag,
                addr,
                data_addr,
                connected_at: final(self)@.last().connected_at,
                rate_batches: 0,
                rate_bytes: 0,
                unacked: 0,
                last_batch_items: 0,
                last_batch_bytes: 0,
                state: ConsumerPhase::Idle,
                max_batch_requested: 0,
                last_batch_delivered_ms: 0,
                assigned_producer_id: None,
            }),
            final(self)@.last().consumer_tag@ == "consumer-"@ + decimal(id as nat),
    {
        let now = now_secs();
        self.register_at(addr, data_addr, now)
    }

    /// Forgets consumer `id`, and the batch it awaited.
    pub fn remove(&mut self, id: u64)
        requires
            old(self).wf(),
        ensures
            final(self).wf(),
            final(self)@ == without_consumer(old(self)@, id),
            final(self).awaiting() == match find_consumer(old(self)@, id) {
                Some(e) => match e.assigned_producer_id {
                    Some(p) => old(self).awaiting().remove((p, id)),
                    None => old(self).awaiting(),
                },
                None => old(self).awaiting(),
            },
            final(self).next_id() == old(self).next_id(),
    {
        match self.find(id) {
            Some(i) => {
                let ghost s = self.entries@;
                let pid = self.entries[i].assigned_producer_id;
                proof {
                    lemma_without_at(s, i as int);
                }
                self.entries.remove(i);
                assert forall|a: int, b: int| 0 <= a < b < self.entries@.len() implies self.entries@[a].id < self.entries@[b].id by {
                    if a >= i {
                        assert(self.entries@[a] == s[a + 1]);
                    }
                    if b >= i {
                        assert(self.entries@[b] == s[b + 1]);
                    }
                }
                assert forall|j: int| 0 <= j < self.entries@.len() implies 1 <= #[trigger] self.entries@[j].id < self.next_id by {
                    if j >= i {
                        assert(self.entries@[j] == s[j + 1]);
                    }
                }
                match pid {
                    Some(p) => {
                        self.drop_pairs(p, Some(id), 0);
                        assert(self.awaiting() =~= old(self).awaiting().remove((p, id)));
                    },
                    None => {},
                }
            },
            None => {
                proof {
                    lemma_without_none(self.entries@, id);
                }
            },
        }
    }

    /// Applies an in-place change to entry `i`, keeping the ids.
    proof fn lemma_update_wf(&self, old_self: &Self, i: int)
        requires
            old_self.wf(),
            0 <= i < old_self.entries@.len(),
            self.entries@ == old_self.entries@.update(i, self.entries@[i]),
            self.entries@[i].id == old_self.entries@[i].id,
            self.next_id == old_self.next_id,
        ensures
            self.wf(),
    {
        lemma_same_id(old_self.entries@, i, self.entries@[i], self.next_id);
    }

    /// Names consumer `id` `tag`, unless `tag` is empty.
    pub fn set_consumer_tag(&mut self, id: u64, tag: String)
        requires
            old(self).wf(),
        ensures
            final(self).wf(),
            final(self)@ == if tag@.len() == 0 {
                old(self)@
            } else {
                update_consumer(old(self)@, id, |e: ConsumerEntry| ConsumerEntry { consumer_tag: tag, ..e })
            },
            final(self).awaiting() == old(self).awaiting(),
            final(self).next_id() == old(self).next_id(),
    {
        if tag.unicode_len() == 0 {
            return;
        }
        let ghost s = self.entries@;
        let ghost t = tag;
        match self.find(id) {
            Some(i) => {
                self.entries[i].consumer_tag = tag;
                proof {
                    assert(self.entries@ =~= s.update(i as int, self.entries@[i as int]));
                    self.lemma_update_wf(old(self), i as int);
                }
            },
            None => {},
        }
        assert(self@ =~= update_consumer(s, id, |e: ConsumerEntry| ConsumerEntry { consumer_tag: t, ..e }));
    }

    /// Puts consumer `id` in phase `state`.
    pub fn set_state(&mut self, id: u64, state: ConsumerPhase)
        requires
            old(self).wf(),
        ensures
            final(self).wf(),
            final(self)@ == update_consumer(old(self)@, id, |e: ConsumerEntry| ConsumerEntry { state, ..e }),
            final(self).awaiting() == old(self).awaiting(),
            final(self).next_id() == old(self).next_id(),
    {
        let ghost s = self.entries@;
        match self.find(id) {
            Some(i) => {
                self.entries[i].state = state;
                proof {
                    assert(self.entries@ =~= s.update(i as int, self.entries@[i as int]));
                    self.lemma_update_wf(old(self), i as int);
                }
            },
            None => {},
        }
        assert(self@ =~= update_consumer(s, id, |e: ConsumerEntry| ConsumerEntry { state, ..e }));
    }

    /// The phase of consumer `id`.
    pub fn state_of(&self, id: u64) -> (r: Option<ConsumerPhase>)
        requires
            self.wf(),
        ensures
            r == (match find_consumer(self@, id) {
                Some(e) => Some(e.state),
                None => None,
            }),
    {
        match self.find(id) {
            Some(i) => Some(self.entries[i].state),
            None => None,
        }
    }

    /// Consumer `id` asked for up to `max_items` at `ts_ms`: nothing is
    /// unacknowledged any more. Returns the time since its last delivery
    /// (see `cycle_sample`), which feeds its cycle-time average.
    pub fn on_ready(&mut self, id: u64, max_items: u16, ts_ms: u64) -> (r: Option<u64>)
        requires
            old(self).wf(),
        ensures
            final(self).wf(),
            r == (match find_consumer(old(self)@, id) {
                Some(e) => cycle_sample(e, ts_ms),
                None => None,
            }),
            final(self)@ == update_consumer(
                old(self)@,
                id,
                |e: ConsumerEntry| ConsumerEntry { max_batch_requested: at_least_one_u16(max_items), unacked: 0, ..e },
            ),
            final(self).awaiting() == old(self).awaiting(),
            final(self).next_id() == old(self).next_id(),
    {
        let ghost s = self.entries@;
        let r = match self.find(id) {
            Some(i) => {
                let last = self.entries[i].last_batch_delivered_ms;
                let sample = if last > 0 && ts_ms > last { Some(ts_ms - last) } else { None };
                self.entries[i].max_batch_requested = if max_items < 1 { 1 } else { max_items };
                self.entries[i].unacked = 0;
                proof {
                    assert(self.entries@ =~= s.update(i as int, self.entries@[i as int]));
                    self.lemma_update_wf(old(self), i as int);
                }
                sample
            },
            None => None,
        };
        assert(self@ =~= update_consumer(
            s,
            id,
            |e: ConsumerEntry| ConsumerEntry { max_batch_requested: at_least_one_u16(max_items), unacked: 0, ..e },
        ));
        r
    }

    /// Consumer `id` received a batch of `msg_count` messages and
    /// `batch_bytes` bytes at `ts_ms` (see `delivered`).
    pub fn record_batch(&mut self, id: u64, msg_count: u64, batch_bytes: u64, ts_ms: u64)
        requires
            old(self).wf(),
        ensures
            final(self).wf(),
            final(self)@ == update_consumer(old(self)@, id, |e: ConsumerEntry| delivered(e, msg_count, batch_bytes, ts_ms)),
            final(self).awaiting() == old(self).awaiting(),
            final(self).next_id() == old(self).next_id(),
    {
        let ghost s = self.entries@;
        match self.find(id) {
            Some(i) => {
                self.apply_delivery(i, msg_count, batch_bytes, ts_ms);
            },
            None => {},
        }
        assert(self@ =~= update_consumer(s, id, |e: ConsumerEntry| delivered(e, msg_count, batch_bytes, ts_ms)));
    }

    fn apply_delivery(&mut self, i: usize, msg_count: u64, batch_bytes: u64, ts_ms: u64)
        requires
            old(self).wf(),
            i < old(self)@.len(),
        ensures
            final(self).wf(),
            final(self)@ == old(self)@.update(i as int, delivered(old(self)@[i as int], msg_count, batch_bytes, ts_ms)),
            final(self).awaiting == old(self).awaiting,
            final(self).next_id == old(self).next_id,
    {
        let ghost s = self.entries@;
        self.entries[i].rate_batches = self.entries[i].rate_batches.wrapping_add(1);
        self.entries[i].rate_bytes = self.entries[i].rate_bytes.wrapping_add(batch_bytes);
        self.entries[i].unacked = msg_count;
        self.entries[i].last_batch_items = msg_count;
        self.entries[i].last_batch_bytes = batch_bytes;
        self.entries[i].last_batch_delivered_ms = ts_ms;
        self.entries[i].assigned_producer_id = None;
        self.entries[i].state = ConsumerPhase::Processing;
        proof {
            assert(self.entries@ =~= s.update(i as int, self.entries@[i as int]));
            self.lemma_update_wf(old(self), i as int);
        }
    }

    /// Sets what consumer `id` has not acknowledged.
    pub fn set_unacked(&mut self, id: u64, unacked: u64)
        requires
            old(self).wf(),
        ensures
            final(self).wf(),
            final(self)@ == update_consumer(old(self)@, id, |e: ConsumerEntry| ConsumerEntry { unacked, ..e }),
            final(self).awaiting() == old(self).awaiting(),
            final(self).next_id() == old(self).next_id(),
    {
        let ghost s = self.entries@;
        match self.find(id) {
            Some(i) => {
                self.entries[i].unacked = unacked;
                proof {
                    assert(self.entries@ =~= s.update(i as int, self.entries@[i as int]));
                    self.lemma_update_wf(old(self), i as int);
                }
            },
            None => {},
        }
        assert(self@ =~= update_consumer(s, id, |e: ConsumerEntry| ConsumerEntry { unacked, ..e }));
    }

    /// Consumer `id` starts a fetch cycle at `ts_ms`, asking for up to
    /// `max_items`: the batch it awaited (if any) is forgotten, nothing is
    /// unacknowledged, it waits for a match, and it takes `consumer_tag`
    /// unless that is empty. Returns the time since its last delivery.
    pub fn begin_cycle(&mut self, id: u64, max_items: u16, consumer_tag: &str, ts_ms: u64) -> (r: Option<u64>)
        requires
            old(self).wf(),
        ensures
            final(self).wf(),
            r == (match find_consumer(old(self)@, id) {
                Some(e) => cycle_sample(e, ts_ms),
                None => None,
            }),
            cycle_begun(old(self)@, final(self)@, id, max_items, consumer_tag@),
            final(self).awaiting() == match find_consumer(old(self)@, id) {
                Some(e) => match e.assigned_producer_id {
                    Some(p) => old(self).awaiting().remove((p, id)),
                    None => old(self).awaiting(),
                },
                None => old(self).awaiting(),
            },
            final(self).next_id() == old(self).next_id(),
    {
        let ghost s = self.entries@;
        match self.find(id) {
            None => None,
            Some(i) => {
                let last = self.entries[i].last_batch_delivered_ms;
                let sample = if last > 0 && ts_ms > last { Some(ts_ms - last) } else { None };
                let stale = self.entries[i].assigned_producer_id;
                self.entries[i].assigned_producer_id = None;
                self.entries[i].max_batch_requested = if max_items < 1 { 1 } else { max_items };
                self.entries[i].unacked = 0;
                self.entries[i].state = ConsumerPhase::MatcherQueue;
                if consumer_tag.unicode_len() > 0 {
                    self.entries[i].consumer_tag = consumer_tag.to_owned();
                }
                proof {
                    assert(self.entries@ =~= s.update(i as int, self.entries@[i as int]));
                    self.lemma_update_wf(old(self), i as int);
                }
                match stale {
                    Some(p) => {
                        self.drop_pairs(p, Some(id), 0);
                        assert(self.awaiting() =~= old(self).awaiting().remove((p, id)));
                    },
                    None => {},
                }
                sample
            },
        }
    }

    /// Whether consumer `consumer_id` awaits a batch from `producer_id`.
    fn awaits(&self, producer_id: u64, consumer_id: u64) -> (r: bool)
        ensures
            r == self.awaiting().contains((producer_id, consumer_id)),
    {
        proof {
            lemma_pair_set_contains(self.awaiting@, (producer_id, consumer_id));
        }
        let mut i: usize = 0;
        while i < self.awaiting.len()
            invariant
                i <= self.awaiting@.len(),
                forall|j: int| 0 <= j < i ==> self.awaiting@[j] != (producer_id, consumer_id),
            decreases self.awaiting@.len() - i,
        {
            let (p, c) = self.awaiting[i];
            if p == producer_id && c == consumer_id {
                assert(self.awaiting@[i as int] == (producer_id, consumer_id));
                assert(self.awaiting@.contains((producer_id, consumer_id)));
                proof {
                    lemma_pair_set_contains(self.awaiting@, (producer_id, consumer_id));
                }
                return true;
            }
            i = i + 1;
        }
        false
    }

    /// Consumer `id` was matched with producer `producer_id` and awaits its
    /// batch.
    pub fn mark_awaiting_batch(&mut self, id: u64, producer_id: u64)
        requires
            old(self).wf(),
        ensures
            final(self).wf(),
            final(self)@ == update_consumer(
                old(self)@,
                id,
                |e: ConsumerEntry| ConsumerEntry {
                    assigned_producer_id: Some(producer_id),
                    state: ConsumerPhase::AwaitingBatch,
                    ..e
                },
            ),
            final(self).awaiting() == old(self).awaiting().insert((producer_id, id)),
            final(self).next_id() == old(self).next_id(),
    {
        let ghost s = self.entries@;
        match self.find(id) {
            Some(i) => {
                self.entries[i].assigned_producer_id = Some(producer_id);
                self.entries[i].state = ConsumerPhase::AwaitingBatch;
                proof {
                    assert(self.entries@ =~= s.update(i as int, self.entries@[i as int]));
                    self.lemma_update_wf(old(self), i as int);
                }
            },
            None => {},
        }
        assert(self@ =~= update_consumer(
            s,
            id,
            |e: ConsumerEntry| ConsumerEntry {
                assigned_producer_id: Some(producer_id),
                state: ConsumerPhase::AwaitingBatch,
                ..e
            },
        ));
        self.track_awaiting(producer_id, id);
    }

    /// Producer `producer_id` was given a new assignment, for
    /// `keep_consumer_id`: every other consumer still awaiting it (its
    /// delivery report never came) is released to idle, and their pairs
    /// are dropped from the index.
    pub fn release_stale_assignments(&mut self, producer_id: u64, keep_consumer_id: u64)
        requires
            old(self).wf(),
        ensures
            final(self).wf(),
            final(self)@ == stale_released(old(self)@, old(self).awaiting(), producer_id, keep_consumer_id),
            final(self).awaiting() == stale_pairs_dropped(old(self).awaiting(), producer_id, keep_consumer_id),
            final(self).next_id() == old(self).next_id(),
    {
        let ghost s0 = self.entries@;
        let ghost a0 = self.awaiting();
        let mut i: usize = 0;
        while i < self.entries.len()
            invariant
                self.wf(),
                self.next_id == old(self).next_id,
                self.awaiting == old(self).awaiting,
                a0 == old(self).awaiting(),
                self.entries@.len() == s0.len(),
                i <= s0.len(),
                forall|j: int| 0 <= j < i ==> self.entries@[j] == (if a0.contains((producer_id, s0[j].id)) && s0[j].id != keep_consumer_id
                    && s0[j].state == ConsumerPhase::AwaitingBatch {
                    ConsumerEntry { assigned_producer_id: None, state: ConsumerPhase::Idle, ..s0[j] }
                } else {
                    s0[j]
                }),
                forall|j: int| i <= j < s0.len() ==> self.entries@[j] == s0[j],
            decreases s0.len() - i,
        {
            let cid = self.entries[i].id;
            if cid != keep_consumer_id && self.entries[i].state == ConsumerPhase::AwaitingBatch && self.awaits(producer_id, cid) {
                let ghost s1 = self.entries@;
                self.entries[i].assigned_producer_id = None;
                self.entries[i].state = ConsumerPhase::Idle;
                proof {
                    assert(self.entries@ =~= s1.update(i as int, self.entries@[i as int]));
                    lemma_same_id(s1, i as int, self.entries@[i as int], self.next_id);
                }
            }
            i = i + 1;
        }
        assert(self.entries@ =~= s0.map_values(
            |e: ConsumerEntry| if a0.contains((producer_id, e.id)) && e.id != keep_consumer_id
                && e.state == ConsumerPhase::AwaitingBatch {
                ConsumerEntry { assigned_producer_id: None, state: ConsumerPhase::Idle, ..e }
            } else {
                e
            },
        ));
        self.drop_pairs(producer_id, None, keep_consumer_id);
    }

    /// Puts consumer `id` in phase `state`; outside `AwaitingBatch` it no
    /// longer awaits a batch.
    pub fn set_phase(&mut self, id: u64, state: ConsumerPhase)
        requires
            old(self).wf(),
        ensures
            final(self).wf(),
            final(self)@ == update_consumer(
                old(self)@,
                id,
                |e: ConsumerEntry| ConsumerEntry {
                    state,
                    assigned_producer_id: if state == ConsumerPhase::AwaitingBatch { e.assigned_producer_id } else { None },
                    ..e
                },
            ),
            final(self).awaiting() == match find_consumer(old(self)@, id) {
                Some(e) => match e.assigned_producer_id {
                    Some(p) => if state != ConsumerPhase::AwaitingBatch {
                        old(self).awaiting().remove((p, id))
                    } else {
                        old(self).awaiting()
                    },
                    None => old(self).awaiting(),
                },
                None => old(self).awaiting(),
            },
            final(self).next_id() == old(self).next_id(),
    {
        let ghost s = self.entries@;
        match self.find(id) {
            Some(i) => {
                let stale = if state != ConsumerPhase::AwaitingBatch {
                    let p = self.entries[i].assigned_producer_id;
                    self.entries[i].assigned_producer_id = None;
                    p
                } else {
                    None
                };
                self.entries[i].state = state;
                proof {
                    assert(self.entries@ =~= s.update(i as int, self.entries@[i as int]));
                    self.lemma_update_wf(old(self), i as int);
                }
                match stale {
                    Some(p) => {
                        self.drop_pairs(p, Some(id), 0);
                        assert(self.awaiting() =~= old(self).awaiting().remove((p, id)));
                    },
                    None => {},
                }
            },
            None => {},
        }
        assert(self@ =~= update_consumer(
            s,
            id,
            |e: ConsumerEntry| ConsumerEntry {
                state,
                assigned_producer_id: if state == ConsumerPhase::AwaitingBatch { e.assigned_producer_id } else { None },
                ..e
            },
        ));
    }

    /// What consumer `id` last asked for and where it receives batches, to
    /// queue it again for a match.
    pub fn match_context(&self, id: u64) -> (r: Option<(ReadyRequest, String)>)
        requires
            self.wf(),
        ensures
            match find_consumer(self@, id) {
                Some(e) => r matches Some((req, data)) && req.max_items == at_least_one_u16(e.max_batch_requested)
                    && req.consumer_tag == e.consumer_tag && data == e.data_addr,
                None => r is None,
            },
    {
        match self.find(id) {
            Some(i) => {
                let e = &self.entries[i];
                let max = if e.max_batch_requested < 1 { 1 } else { e.max_batch_requested };
                Some((ReadyRequest { max_items: max, consumer_tag: e.consumer_tag.clone() }, e.data_addr.clone()))
            },
            None => None,
        }
    }

    /// A consumer awaiting a batch from `producer_id`, if there is one.
    pub fn find_id_by_assigned_producer(&self, producer_id: u64) -> (r: Option<u64>)
        requires
            self.wf(),
        ensures
            match r {
                Some(c) => c >= 1 && (find_consumer(self@, c) matches Some(e) && e.assigned_producer_id == Some(producer_id)),
                None => forall|j: int| 0 <= j < self@.len() ==> self@[j].assigned_producer_id != Some(producer_id),
            },
    {
        let mut i: usize = 0;
        while i < self.entries.len()
            invariant
                self.wf(),
                i <= self.entries@.len(),
                forall|j: int| 0 <= j < i ==> self.entries@[j].assigned_producer_id != Some(producer_id),
            decreases self.entries@.len() - i,
        {
            let hit = match self.entries[i].assigned_producer_id {
                Some(p) => p == producer_id,
                None => false,
            };
            if hit {
                proof {
                    lemma_find_at(self.entries@, i as int);
                }
                return Some(self.entries[i].id);
            }
            i = i + 1;
        }
        None
    }

    /// Consumer `id`'s batch is over at `ts_ms`: with no messages it goes
    /// back to idle, else the batch is recorded (see `delivered`); either way
    /// it no longer awaits a batch.
    pub fn finish_batch(&mut self, id: u64, msg_count: u64, batch_bytes: u64, ts_ms: u64, empty: bool)
        requires
            old(self).wf(),
        ensures
            final(self).wf(),
            final(self)@ == update_consumer(
                old(self)@,
                id,
                |e: ConsumerEntry| if empty {
                    ConsumerEntry { unacked: 0, assigned_producer_id: None, state: ConsumerPhase::Idle, ..e }
                } else {
                    delivered(e, msg_count, batch_bytes, ts_ms)
                },
            ),
            final(self).awaiting() == match find_consumer(old(self)@, id) {
                Some(e) => match e.assigned_producer_id {
                    Some(p) => old(self).awaiting().remove((p, id)),
                    None => old(self).awaiting(),
                },
                None => old(self).awaiting(),
            },
            final(self).next_id() == old(self).next_id(),
    {
        let ghost s = self.entries@;
        match self.find(id) {
            Some(i) => {
                let pid = self.entries[i].assigned_producer_id;
                if empty {
                    self.entries[i].unacked = 0;
                    self.entries[i].assigned_producer_id = None;
                    self.entries[i].state = ConsumerPhase::Idle;
                    proof {
                        assert(self.entries@ =~= s.update(i as int, self.entries@[i as int]));
                        self.lemma_update_wf(old(self), i as int);
                    }
                } else {
                    self.apply_delivery(i, msg_count, batch_bytes, ts_ms);
                }
                match pid {
                    Some(p) => {
                        self.drop_pairs(p, Some(id), 0);
                        assert(self.awaiting() =~= old(self).awaiting().remove((p, id)));
                    },
                    None => {},
                }
            },
            None => {},
        }
        assert(self@ =~= update_consumer(
            s,
            id,
            |e: ConsumerEntry| if empty {
                ConsumerEntry { unacked: 0, assigned_producer_id: None, state: ConsumerPhase::Idle, ..e }
            } else {
                delivered(e, msg_count, batch_bytes, ts_ms)
            },
        ));
    }

    /// Messages delivered to consumers and not yet acknowledged, in all.
    pub fn unacked_total(&self) -> (n: u64)
        requires
            unacked_sum(self@) <= u64::MAX,
        ensures
            n == unacked_sum(self@),
    {
        let ghost s = self.entries@;
        let mut total: u64 = 0;
        let mut i: usize = 0;
        while i < self.entries.len()
            invariant
                self.entries@ == s,
                i <= s.len(),
                unacked_sum(s) <= u64::MAX,
                total == unacked_sum(s.take(i as int)),
            decreases s.len() - i,
        {
            assert(s.take(i + 1).drop_last() =~= s.take(i as int));
            proof {
                lemma_unacked_prefix(s, i + 1);
            }
            total = total + self.entries[i].unacked;
            i = i + 1;
        }
        assert(s.take(s.len() as int) =~= s);
        total
    }

    /// How many consumers wait for a match, await a batch, and have a batch
    /// in flight (awaiting it, processing it, or failed on it).
    pub fn phase_counts(&self) -> (r: (u64, u64, u64))
        ensures
            r.0 == count_phase(self@, |p: ConsumerPhase| p == ConsumerPhase::MatcherQueue),
            r.1 == count_phase(self@, |p: ConsumerPhase| p == ConsumerPhase::AwaitingBatch),
            r.2 == count_phase(
                self@,
                |p: ConsumerPhase| p == ConsumerPhase::AwaitingBatch || p == ConsumerPhase::Processing || p
                    == ConsumerPhase::DeliveryFailed,
            ),
    {
        let ghost s = self.entries@;
        let ghost fw = |p: ConsumerPhase| p == ConsumerPhase::MatcherQueue;
        let ghost fa = |p: ConsumerPhase| p == ConsumerPhase::AwaitingBatch;
        let ghost fi = |p: ConsumerPhase| p == ConsumerPhase::AwaitingBatch || p == ConsumerPhase::Processing || p
            == ConsumerPhase::DeliveryFailed;
        let n = self.entries.len();
        let mut waiting: u64 = 0;
        let mut awaiting: u64 = 0;
        let mut inflight: u64 = 0;
        let mut i: usize = 0;
        while i < n
            invariant
                n == s.len(),
                self.entries@ == s,
                i <= n,
                fw == (|p: ConsumerPhase| p == ConsumerPhase::MatcherQueue),
                fa == (|p: ConsumerPhase| p == ConsumerPhase::AwaitingBatch),
                fi == (|p: ConsumerPhase| p == ConsumerPhase::AwaitingBatch || p == ConsumerPhase::Processing || p
                    == ConsumerPhase::DeliveryFailed),
                waiting == count_phase(s.take(i as int), fw),
                awaiting == count_phase(s.take(i as int), fa),
                inflight == count_phase(s.take(i as int), fi),
            decreases n - i,
        {
            assert(s.take(i + 1).drop_last() =~= s.take(i as int));
            assert(s.take(i + 1).last() == s[i as int]);
            proof {
                lemma_count_phase_le(s.take(i as int), fw);
                lemma_count_phase_le(s.take(i as int), fa);
                lemma_count_phase_le(s.take(i as int), fi);
            }
            let st = self.entries[i].state;
            if st == ConsumerPhase::MatcherQueue {
                waiting = waiting + 1;
            }
            if st == ConsumerPhase::AwaitingBatch {
                awaiting = awaiting + 1;
            }
            if st == ConsumerPhase::AwaitingBatch || st == ConsumerPhase::Processing || st == ConsumerPhase::DeliveryFailed {
                inflight = inflight + 1;
            }
            i = i + 1;
        }
        assert(s.take(n as int) =~= s);
        (waiting, awaiting, inflight)
    }
}

} // verus!
