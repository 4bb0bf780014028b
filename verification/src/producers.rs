//! The master's record of connected producers: their link state, the
//! backlog their heartbeats report, and which consumer each one serves.
//! The counts of ready and busy producers are kept beside the entries and
//! always equal what the entries say.

use crate::clock::{now_secs, unix_ms};
use crate::protocol::ProducerHeartbeat;
use vstd::prelude::*;

verus! {

/// After an assignment, how long a producer may stay busy without reporting
/// the delivery before a heartbeat frees it.
pub const STALE_BUSY_MS: u64 = 15_000;

#[derive(Debug, Clone, Copy, PartialEq, Eq, Structural)]
pub enum ProducerState {
    Idle,
    Ready,
    Busy,
}

/// What the master knows of one producer.
#[derive(Debug, Clone)]
pub struct ProducerEntry {
    pub id: u64,
    pub addr: String,
    /// Seconds since the Unix epoch at registration.
    pub connected_at: u64,
    pub state: ProducerState,
    pub pending_messages: u32,
    pub pending_bytes: u32,
    pub ring_messages: u32,
    pub ring_bytes: u32,
    /// The drop total of the last heartbeat.
    pub hb_drops: u64,
    pub rate_batches: u64,
    pub rate_msgs: u64,
    pub rate_errors: u64,
    pub rate_drops: u64,
    /// The consumer of the assignment in flight.
    pub pending_consumer_id: Option<u64>,
    /// Unix milliseconds at which the assignment was sent (0: none).
    pub busy_since_ms: u64,
    /// A ready notice arrived that the heartbeat may not show yet.
    pub prdy_pending: bool,
}

/// Whether a match can drain something now: the ring holds messages, or a
/// ready notice is pending.
pub open spec fn has_backlog(e: ProducerEntry) -> bool {
    e.prdy_pending || e.ring_messages > 0
}

/// The ranking weight: messages (pending and ring; at least 1 when a ready
/// notice is pending), then bytes.
pub open spec fn weight_of(e: ProducerEntry) -> (u64, u64) {
    let msgs = e.pending_messages + e.ring_messages;
    let bytes = e.pending_bytes + e.ring_bytes;
    (if msgs == 0 && e.prdy_pending { 1u64 } else { msgs as u64 }, bytes as u64)
}

pub open spec fn with_state(e: ProducerEntry, st: ProducerState) -> ProducerEntry {
    ProducerEntry { state: st, ..e }
}

/// Back to idle with no assignment in flight.
pub open spec fn released(e: ProducerEntry) -> ProducerEntry {
    ProducerEntry { state: ProducerState::Idle, pending_consumer_id: None, busy_since_ms: 0, ..e }
}

/// The entry with id `id`, if any.
pub open spec fn lookup(s: Seq<ProducerEntry>, id: u64) -> Option<ProducerEntry>
    decreases s.len(),
{
    if s.len() == 0 {
        None
    } else if s.last().id == id {
        Some(s.last())
    } else {
        lookup(s.drop_last(), id)
    }
}

/// `s` without the entry with id `id`.
pub open spec fn without(s: Seq<ProducerEntry>, id: u64) -> Seq<ProducerEntry>
    decreases s.len(),
{
    if s.len() == 0 {
        s
    } else if s.last().id == id {
        without(s.drop_last(), id)
    } else {
        without(s.drop_last(), id).push(s.last())
    }
}

/// `s` with `f` applied to the entry with id `id`.
pub open spec fn update_id(s: Seq<ProducerEntry>, id: u64, f: spec_fn(ProducerEntry) -> ProducerEntry) -> Seq<ProducerEntry> {
    s.map_values(|e: ProducerEntry| if e.id == id { f(e) } else { e })
}

/// How many entries are in state `st`.
pub open spec fn count_state(s: Seq<ProducerEntry>, st: ProducerState) -> nat
    decreases s.len(),
{
    if s.len() == 0 {
        0
    } else {
        count_state(s.drop_last(), st) + if s.last().state == st { 1nat } else { 0nat }
    }
}

/// Ids strictly increase along `s`.
pub open spec fn ids_increasing(s: Seq<ProducerEntry>) -> bool {
    forall|a: int, b: int| 0 <= a < b < s.len() ==> s[a].id < s[b].id
}

proof fn lemma_lookup_at(s: Seq<ProducerEntry>, i: int)
    requires
        ids_increasing(s),
        0 <= i < s.len(),
    ensures
        lookup(s, s[i].id) == Some(s[i]),
    decreases s.len(),
{
    if i < s.len() - 1 {
        assert(s.last().id != s[i].id);
        lemma_lookup_at(s.drop_last(), i);
    }
}

proof fn lemma_lookup_none(s: Seq<ProducerEntry>, id: u64)
    requires
        forall|j: int| 0 <= j < s.len() ==> s[j].id != id,
    ensures
        lookup(s, id) is None,
    decreases s.len(),
{
    if s.len() > 0 {
        lemma_lookup_none(s.drop_last(), id);
    }
}

proof fn lemma_without_at(s: Seq<ProducerEntry>, i: int)
    requires
        ids_increasing(s),
        0 <= i < s.len(),
    ensures
        without(s, s[i].id) == s.remove(i),
    decreases s.len(),
{
    if i == s.len() - 1 {
        lemma_without_none(s.drop_last(), s[i].id);
        assert(s.remove(i) =~= s.drop_last());
    } else {
        lemma_without_at(s.drop_last(), i);
        assert(s.remove(i) =~= s.drop_last().remove(i).push(s.last()));
    }
}

proof fn lemma_without_none(s: Seq<ProducerEntry>, id: u64)
    requires
        forall|j: int| 0 <= j < s.len() ==> s[j].id != id,
    ensures
        without(s, id) == s,
    decreases s.len(),
{
    if s.len() > 0 {
        lemma_without_none(s.drop_last(), id);
        assert(s.drop_last().push(s.last()) =~= s);
    }
}

proof fn lemma_count_update(s: Seq<ProducerEntry>, i: int, x: ProducerEntry, st: ProducerState)
    requires
        0 <= i < s.len(),
    ensures
        count_state(s.update(i, x), st) + (if s[i].state == st { 1nat } else { 0nat })
            == count_state(s, st) + (if x.state == st { 1nat } else { 0nat }),
    decreases s.len(),
{
    if i == s.len() - 1 {
        assert(s.update(i, x).drop_last() =~= s.drop_last());
    } else {
        lemma_count_update(s.drop_last(), i, x, st);
        assert(s.update(i, x).drop_last() =~= s.drop_last().update(i, x));
    }
}

proof fn lemma_count_remove(s: Seq<ProducerEntry>, i: int, st: ProducerState)
    requires
        0 <= i < s.len(),
    ensures
        count_state(s.remove(i), st) + (if s[i].state == st { 1nat } else { 0nat }) == count_state(s, st),
    decreases s.len(),
{
    if i == s.len() - 1 {
        assert(s.remove(i) =~= s.drop_last());
    } else {
        lemma_count_remove(s.drop_last(), i, st);
        assert(s.remove(i).drop_last() =~= s.drop_last().remove(i));
    }
}

proof fn lemma_count_le_len(s: Seq<ProducerEntry>, st: ProducerState)
    ensures
        count_state(s, st) <= s.len(),
    decreases s.len(),
{
    if s.len() > 0 {
        lemma_count_le_len(s.drop_last(), st);
    }
}

proof fn lemma_same_shape(s: Seq<ProducerEntry>, i: int, x: ProducerEntry, next: u64)
    requires
        0 <= i < s.len(),
        x.id == s[i].id,
        x.state == s[i].state,
    ensures
        ids_increasing(s) ==> ids_increasing(s.update(i, x)),
        (forall|j: int| 0 <= j < s.len() ==> s[j].id < next) ==> (forall|j: int| 0 <= j < s.len() ==> s.update(i, x)[j].id < next),
        count_state(s.update(i, x), ProducerState::Ready) == count_state(s, ProducerState::Ready),
        count_state(s.update(i, x), ProducerState::Busy) == count_state(s, ProducerState::Busy),
{
    lemma_count_update(s, i, x, ProducerState::Ready);
    lemma_count_update(s, i, x, ProducerState::Busy);
    assert forall|j: int| 0 <= j < s.len() implies s.update(i, x)[j].id == s[j].id by {
        if j == i {
        }
    }
}

// ------------------------------------------------------------ ranking

/// `a` ranks above `b`: more messages, or as many and more bytes.
pub open spec fn lex_gt(a: (u64, u64), b: (u64, u64)) -> bool {
    a.0 > b.0 || (a.0 == b.0 && a.1 > b.1)
}

/// Candidate `c` is known and has a backlog.
pub open spec fn eligible(s: Seq<ProducerEntry>, c: u64) -> bool {
    lookup(s, c) matches Some(e) && has_backlog(e)
}

/// The weight of candidate `c`.
pub open spec fn cand_weight(s: Seq<ProducerEntry>, c: u64) -> (u64, u64) {
    weight_of(lookup(s, c).unwrap())
}

/// The highest weight among the eligible candidates (`(0, 0)` when none).
pub open spec fn best_weight(s: Seq<ProducerEntry>, cands: Seq<u64>) -> (u64, u64)
    decreases cands.len(),
{
    if cands.len() == 0 {
        (0u64, 0u64)
    } else {
        let b = best_weight(s, cands.drop_last());
        let c = cands.last();
        if eligible(s, c) && lex_gt(cand_weight(s, c), b) {
            cand_weight(s, c)
        } else {
            b
        }
    }
}

/// The eligible candidates of weight `w`, in the order given.
pub open spec fn tier(s: Seq<ProducerEntry>, cands: Seq<u64>, w: (u64, u64)) -> Seq<u64>
    decreases cands.len(),
{
    if cands.len() == 0 {
        Seq::empty()
    } else {
        let t = tier(s, cands.drop_last(), w);
        let c = cands.last();
        if eligible(s, c) && cand_weight(s, c) == w {
            t.push(c)
        } else {
            t
        }
    }
}

/// The candidates that are unknown or have no backlog, in the order given.
pub open spec fn stale_of(s: Seq<ProducerEntry>, cands: Seq<u64>) -> Seq<u64>
    decreases cands.len(),
{
    if cands.len() == 0 {
        Seq::empty()
    } else {
        let t = stale_of(s, cands.drop_last());
        if eligible(s, cands.last()) {
            t
        } else {
            t.push(cands.last())
        }
    }
}

/// A ready producer among `cands` with no backlog drops back to idle.
pub open spec fn demoted(e: ProducerEntry, cands: Seq<u64>) -> ProducerEntry {
    if cands.contains(e.id) && !has_backlog(e) && e.state == ProducerState::Ready {
        with_state(e, ProducerState::Idle)
    } else {
        e
    }
}

/// The first index of the smallest element of `t`.
pub open spec fn min_index(t: Seq<u64>) -> int
    decreases t.len(),
{
    if t.len() <= 1 {
        0
    } else {
        let j = min_index(t.drop_last());
        if t.last() < t[j] {
            t.len() - 1
        } else {
            j
        }
    }
}

/// The element at index `k` of `t` sorted ascending.
pub open spec fn kth_smallest(t: Seq<u64>, k: nat) -> u64
    decreases k,
{
    if k == 0 {
        t[min_index(t)]
    } else {
        kth_smallest(t.remove(min_index(t)), (k - 1) as nat)
    }
}

/// The producer a ranking picks: among the eligible candidates of the best
/// weight, sorted by id, the one at the round-robin position `rr`.
pub open spec fn rank_pick(s: Seq<ProducerEntry>, cands: Seq<u64>, rr: usize) -> Option<u64> {
    let t = tier(s, cands, best_weight(s, cands));
    if t.len() == 0 {
        None
    } else {
        Some(kth_smallest(t, (rr as nat) % t.len()))
    }
}

/// The round-robin position after a ranking: advanced only when there was a tie.
pub open spec fn rank_next_rr(s: Seq<ProducerEntry>, cands: Seq<u64>, rr: usize) -> usize {
    let n = tier(s, cands, best_weight(s, cands)).len();
    if n > 1 {
        ((rr + 1) % (n as int)) as usize
    } else {
        rr
    }
}

proof fn lemma_best_is_max(s: Seq<ProducerEntry>, cands: Seq<u64>)
    ensures
        forall|j: int| 0 <= j < cands.len() && eligible(s, cands[j]) ==> !lex_gt(cand_weight(s, #[trigger] cands[j]), best_weight(s, cands)),
    decreases cands.len(),
{
    if cands.len() > 0 {
        lemma_best_is_max(s, cands.drop_last());
        assert forall|j: int| 0 <= j < cands.len() && eligible(s, cands[j]) implies !lex_gt(cand_weight(s, #[trigger] cands[j]), best_weight(s, cands)) by {
            if j < cands.len() - 1 {
                assert(cands[j] == cands.drop_last()[j]);
            }
        }
    }
}

proof fn lemma_tier_empty(s: Seq<ProducerEntry>, cands: Seq<u64>, w: (u64, u64))
    requires
        forall|j: int| 0 <= j < cands.len() && eligible(s, cands[j]) ==> cand_weight(s, #[trigger] cands[j]) != w,
    ensures
        tier(s, cands, w) == Seq::<u64>::empty(),
    decreases cands.len(),
{
    if cands.len() > 0 {
        assert forall|j: int| 0 <= j < cands.len() - 1 && eligible(s, cands.drop_last()[j]) implies cand_weight(s, #[trigger] cands.drop_last()[j]) != w by {
            assert(cands.drop_last()[j] == cands[j]);
        }
        lemma_tier_empty(s, cands.drop_last(), w);
    }
}

/// A tier is no longer than the candidate list.
pub proof fn lemma_tier_len(s: Seq<ProducerEntry>, cands: Seq<u64>, w: (u64, u64))
    ensures
        tier(s, cands, w).len() <= cands.len(),
    decreases cands.len(),
{
    if cands.len() > 0 {
        lemma_tier_len(s, cands.drop_last(), w);
    }
}

proof fn lemma_min_index_range(t: Seq<u64>)
    requires
        t.len() > 0,
    ensures
        0 <= min_index(t) < t.len(),
    decreases t.len(),
{
    if t.len() > 1 {
        lemma_min_index_range(t.drop_last());
    }
}

proof fn lemma_kth_in(t: Seq<u64>, k: nat)
    requires
        k < t.len(),
    ensures
        t.contains(kth_smallest(t, k)),
    decreases k,
{
    lemma_min_index_range(t);
    let m = min_index(t);
    if k == 0 {
        assert(t[m] == kth_smallest(t, k));
    } else {
        let r = t.remove(m);
        lemma_kth_in(r, (k - 1) as nat);
        let x = kth_smallest(r, (k - 1) as nat);
        let j = choose|j: int| 0 <= j < r.len() && r[j] == x;
        if j < m {
            assert(t[j] == x);
        } else {
            assert(t[j + 1] == x);
        }
    }
}

proof fn lemma_tier_members(s: Seq<ProducerEntry>, cands: Seq<u64>, w: (u64, u64), x: u64)
    requires
        tier(s, cands, w).contains(x),
    ensures
        cands.contains(x),
        eligible(s, x),
        cand_weight(s, x) == w,
    decreases cands.len(),
{
    let t = tier(s, cands, w);
    let d = cands.drop_last();
    let j = choose|j: int| 0 <= j < t.len() && t[j] == x;
    if j < tier(s, d, w).len() {
        assert(tier(s, d, w)[j] == x);
        lemma_tier_members(s, d, w, x);
        let k = choose|k: int| 0 <= k < d.len() && d[k] == x;
        assert(cands[k] == x);
    } else {
        assert(cands[cands.len() - 1] == x);
    }
}

proof fn lemma_tier_has(s: Seq<ProducerEntry>, cands: Seq<u64>, w: (u64, u64), j: int)
    requires
        0 <= j < cands.len(),
        eligible(s, cands[j]),
        cand_weight(s, cands[j]) == w,
    ensures
        tier(s, cands, w).contains(cands[j]),
    decreases cands.len(),
{
    let d = cands.drop_last();
    if j < cands.len() - 1 {
        assert(d[j] == cands[j]);
        lemma_tier_has(s, d, w, j);
        let t = tier(s, d, w);
        let k = choose|k: int| 0 <= k < t.len() && t[k] == cands[j];
        assert(tier(s, cands, w)[k] == cands[j]);
    } else {
        assert(tier(s, cands, w).last() == cands[j]);
    }
}

proof fn lemma_eligible_weight_positive(s: Seq<ProducerEntry>, c: u64)
    requires
        eligible(s, c),
    ensures
        cand_weight(s, c).0 >= 1,
{
}

proof fn lemma_best_attained(s: Seq<ProducerEntry>, cands: Seq<u64>, j: int)
    requires
        0 <= j < cands.len(),
        eligible(s, cands[j]),
    ensures
        exists|k: int| 0 <= k < cands.len() && eligible(s, #[trigger] cands[k]) && cand_weight(s, cands[k]) == best_weight(s, cands),
    decreases cands.len(),
{
    let d = cands.drop_last();
    let c = cands.last();
    if eligible(s, c) && lex_gt(cand_weight(s, c), best_weight(s, d)) {
        assert(cand_weight(s, cands[cands.len() - 1]) == best_weight(s, cands));
    } else if j < cands.len() - 1 {
        assert(d[j] == cands[j]);
        lemma_best_attained(s, d, j);
        let k = choose|k: int| 0 <= k < d.len() && eligible(s, #[trigger] d[k]) && cand_weight(s, d[k]) == best_weight(s, d);
        assert(cands[k] == d[k]);
    } else {
        // the last candidate is eligible but does not beat the best of the
        // others, which must then be attained among them
        lemma_eligible_weight_positive(s, c);
        if forall|k: int| 0 <= k < d.len() ==> !eligible(s, #[trigger] d[k]) {
            lemma_best_none(s, d);
        } else {
            let k0 = choose|k: int| 0 <= k < d.len() && eligible(s, #[trigger] d[k]);
            lemma_best_attained(s, d, k0);
            let k = choose|k: int| 0 <= k < d.len() && eligible(s, #[trigger] d[k]) && cand_weight(s, d[k]) == best_weight(s, d);
            assert(cands[k] == d[k]);
        }
    }
}

proof fn lemma_best_none(s: Seq<ProducerEntry>, cands: Seq<u64>)
    requires
        forall|k: int| 0 <= k < cands.len() ==> !eligible(s, #[trigger] cands[k]),
    ensures
        best_weight(s, cands) == (0u64, 0u64),
        tier(s, cands, (0u64, 0u64)) == Seq::<u64>::empty(),
    decreases cands.len(),
{
    if cands.len() > 0 {
        let d = cands.drop_last();
        assert forall|k: int| 0 <= k < d.len() implies !eligible(s, #[trigger] d[k]) by {
            assert(d[k] == cands[k]);
        }
        lemma_best_none(s, d);
        assert(!eligible(s, cands[cands.len() - 1]));
    }
}

/// How many elements of `t` are smaller than `x`.
pub open spec fn count_below(t: Seq<u64>, x: u64) -> nat
    decreases t.len(),
{
    if t.len() == 0 {
        0
    } else {
        count_below(t.drop_last(), x) + if t.last() < x { 1nat } else { 0nat }
    }
}

proof fn lemma_min_index_min(t: Seq<u64>)
    requires
        t.len() > 0,
    ensures
        forall|j: int| 0 <= j < t.len() ==> t[min_index(t)] <= #[trigger] t[j],
    decreases t.len(),
{
    lemma_min_index_range(t);
    if t.len() > 1 {
        let d = t.drop_last();
        lemma_min_index_min(d);
        lemma_min_index_range(d);
        assert forall|j: int| 0 <= j < t.len() implies t[min_index(t)] <= #[trigger] t[j] by {
            if j < t.len() - 1 {
                assert(d[j] == t[j]);
            }
            assert(d[min_index(d)] == t[min_index(d)]);
        }
    }
}

proof fn lemma_count_below_none(t: Seq<u64>, x: u64)
    requires
        forall|j: int| 0 <= j < t.len() ==> x <= #[trigger] t[j],
    ensures
        count_below(t, x) == 0,
    decreases t.len(),
{
    if t.len() > 0 {
        let d = t.drop_last();
        assert forall|j: int| 0 <= j < d.len() implies x <= #[trigger] d[j] by {
            assert(d[j] == t[j]);
        }
        lemma_count_below_none(d, x);
        assert(t.last() == t[t.len() - 1]);
    }
}

proof fn lemma_count_below_remove(t: Seq<u64>, i: int, x: u64)
    requires
        0 <= i < t.len(),
    ensures
        count_below(t, x) == count_below(t.remove(i), x) + if t[i] < x { 1nat } else { 0nat },
    decreases t.len(),
{
    if i == t.len() - 1 {
        assert(t.remove(i) =~= t.drop_last());
    } else {
        let d = t.drop_last();
        lemma_count_below_remove(d, i, x);
        assert(t.remove(i).drop_last() =~= d.remove(i));
        assert(t.remove(i).last() == t.last());
        assert(d[i] == t[i]);
    }
}

/// The element `kth_smallest` picks from distinct `t` has exactly `k`
/// elements of `t` below it: it is the one at index `k` of `t` sorted.
pub proof fn lemma_kth_is_sorted_position(t: Seq<u64>, k: nat)
    requires
        t.no_duplicates(),
        k < t.len(),
    ensures
        t.contains(kth_smallest(t, k)),
        count_below(t, kth_smallest(t, k)) == k,
    decreases k,
{
    lemma_kth_in(t, k);
    lemma_min_index_range(t);
    lemma_min_index_min(t);
    let m = min_index(t);
    if k == 0 {
        lemma_count_below_none(t, t[m]);
    } else {
        let r = t.remove(m);
        assert(r.no_duplicates()) by {
            assert forall|a: int, b: int| 0 <= a < r.len() && 0 <= b < r.len() && a != b implies r[a] != r[b] by {
                let ta = if a < m { a } else { a + 1 };
                let tb = if b < m { b } else { b + 1 };
                assert(r[a] == t[ta] && r[b] == t[tb]);
            }
        }
        lemma_kth_is_sorted_position(r, (k - 1) as nat);
        let x = kth_smallest(r, (k - 1) as nat);
        lemma_count_below_remove(t, m, x);
        let j = choose|j: int| 0 <= j < r.len() && r[j] == x;
        let tj = if j < m { j } else { j + 1 };
        assert(t[tj] == x);
        assert(t[m] <= t[tj]);
        assert(t[m] != x);
    }
}

proof fn lemma_tier_distinct(s: Seq<ProducerEntry>, cands: Seq<u64>, w: (u64, u64))
    requires
        cands.no_duplicates(),
    ensures
        tier(s, cands, w).no_duplicates(),
    decreases cands.len(),
{
    if cands.len() > 0 {
        let d = cands.drop_last();
        assert(d.no_duplicates()) by {
            assert forall|a: int, b: int| 0 <= a < d.len() && 0 <= b < d.len() && a != b implies d[a] != d[b] by {
                assert(d[a] == cands[a] && d[b] == cands[b]);
            }
        }
        lemma_tier_distinct(s, d, w);
        let c = cands.last();
        let t = tier(s, d, w);
        if t.contains(c) {
            lemma_tier_members(s, d, w, c);
            let k = choose|k: int| 0 <= k < d.len() && d[k] == c;
            assert(cands[k] == cands[cands.len() - 1]);
        }
    }
}

/// With distinct candidates, the ranking picks from the best tier the one
/// at index `rr % len` of that tier sorted by id (exactly that many of the
/// tier are below it).
pub proof fn lemma_rank_pick_sorted_position(s: Seq<ProducerEntry>, cands: Seq<u64>, rr: usize)
    requires
        cands.no_duplicates(),
    ensures
        ({
            let t = tier(s, cands, best_weight(s, cands));
            match rank_pick(s, cands, rr) {
                Some(b) => t.contains(b) && count_below(t, b) == (rr as nat) % t.len(),
                None => t.len() == 0,
            }
        }),
{
    let t = tier(s, cands, best_weight(s, cands));
    lemma_tier_distinct(s, cands, best_weight(s, cands));
    if t.len() > 0 {
        lemma_kth_is_sorted_position(t, ((rr as nat) % t.len()) as nat);
    }
}

/// The ids of the producers in state `st`.
pub open spec fn ids_in_state(s: Seq<ProducerEntry>, st: ProducerState) -> Set<u64> {
    Set::new(|id: u64| lookup(s, id) matches Some(e) && e.state == st)
}

/// With distinct ids, the count of entries in state `st` is the number of
/// ids in that state: what `ready_count` and `busy_count` give is how many
/// producers `state_of` reports ready, and busy.
pub proof fn lemma_count_state_is_ids(s: Seq<ProducerEntry>, st: ProducerState)
    requires
        ids_increasing(s),
    ensures
        ids_in_state(s, st).finite(),
        count_state(s, st) == ids_in_state(s, st).len(),
    decreases s.len(),
{
    if s.len() == 0 {
        assert(ids_in_state(s, st) =~= Set::<u64>::empty());
    } else {
        let d = s.drop_last();
        let x = s.last();
        assert(ids_increasing(d)) by {
            assert forall|a: int, b: int| 0 <= a < b < d.len() implies d[a].id < d[b].id by {
                assert(d[a] == s[a] && d[b] == s[b]);
            }
        }
        lemma_count_state_is_ids(d, st);
        assert forall|j: int| 0 <= j < d.len() implies d[j].id != x.id by {
            assert(d[j] == s[j]);
            assert(s[j].id < s[s.len() - 1].id);
        }
        lemma_lookup_none(d, x.id);
        if x.state == st {
            assert(ids_in_state(s, st) =~= ids_in_state(d, st).insert(x.id));
            assert(!ids_in_state(d, st).contains(x.id));
        } else {
            assert(ids_in_state(s, st) =~= ids_in_state(d, st));
        }
    }
}

/// What a lookup finds has the id looked for.
pub proof fn lemma_lookup_id(s: Seq<ProducerEntry>, x: u64)
    ensures
        lookup(s, x) matches Some(e) ==> e.id == x,
    decreases s.len(),
{
    if s.len() > 0 {
        lemma_lookup_id(s.drop_last(), x);
    }
}

/// Looking up an entry after an id-preserving change to entry `id`.
pub proof fn lemma_lookup_update_id(s: Seq<ProducerEntry>, id: u64, f: spec_fn(ProducerEntry) -> ProducerEntry, x: u64)
    requires
        forall|e: ProducerEntry| #[trigger] f(e).id == e.id,
    ensures
        lookup(update_id(s, id, f), x) == match lookup(s, x) {
            Some(e) => Some(if e.id == id { f(e) } else { e }),
            None => None,
        },
    decreases s.len(),
{
    if s.len() > 0 {
        let u = update_id(s, id, f);
        assert(u.drop_last() =~= update_id(s.drop_last(), id, f));
        lemma_lookup_update_id(s.drop_last(), id, f, x);
        assert(u.last() == if s.last().id == id { f(s.last()) } else { s.last() });
    }
}

/// Messages first, bytes to break ties: the producer a ranking picks is a
/// registered candidate with backlog (a ready notice pending or messages in
/// its ring), and no other such candidate has more messages (pending plus
/// ring, counted as 1 when only a notice is pending), nor as many messages
/// and more bytes (pending plus ring). No pick means no candidate has
/// backlog.
pub proof fn lemma_rank_messages_then_bytes(s: Seq<ProducerEntry>, cands: Seq<u64>, rr: usize)
    ensures
        match rank_pick(s, cands, rr) {
            Some(b) => {
                &&& cands.contains(b)
                &&& lookup(s, b) is Some
                &&& (lookup(s, b).unwrap().prdy_pending || lookup(s, b).unwrap().ring_messages > 0)
                &&& forall|j: int| 0 <= j < cands.len() && #[trigger] lookup(s, cands[j]) is Some
                    && (lookup(s, cands[j]).unwrap().prdy_pending || lookup(s, cands[j]).unwrap().ring_messages > 0) ==> {
                        let c = lookup(s, cands[j]).unwrap();
                        let e = lookup(s, b).unwrap();
                        let cm: int = if c.pending_messages + c.ring_messages == 0 && c.prdy_pending { 1 } else { c.pending_messages + c.ring_messages };
                        let em: int = if e.pending_messages + e.ring_messages == 0 && e.prdy_pending { 1 } else { e.pending_messages + e.ring_messages };
                        !(cm > em || (cm == em && c.pending_bytes + c.ring_bytes > e.pending_bytes + e.ring_bytes))
                    }
            },
            None => forall|j: int| 0 <= j < cands.len() ==> !(#[trigger] lookup(s, cands[j]) is Some
                && (lookup(s, cands[j]).unwrap().prdy_pending || lookup(s, cands[j]).unwrap().ring_messages > 0)),
        },
{
    lemma_rank_pick_is_best(s, cands, rr);
    if let Some(b) = rank_pick(s, cands, rr) {
        assert forall|j: int| 0 <= j < cands.len() && #[trigger] lookup(s, cands[j]) is Some
            && (lookup(s, cands[j]).unwrap().prdy_pending || lookup(s, cands[j]).unwrap().ring_messages > 0) implies {
                let c = lookup(s, cands[j]).unwrap();
                let e = lookup(s, b).unwrap();
                let cm: int = if c.pending_messages + c.ring_messages == 0 && c.prdy_pending { 1 } else { c.pending_messages + c.ring_messages };
                let em: int = if e.pending_messages + e.ring_messages == 0 && e.prdy_pending { 1 } else { e.pending_messages + e.ring_messages };
                !(cm > em || (cm == em && c.pending_bytes + c.ring_bytes > e.pending_bytes + e.ring_bytes))
            } by {
            assert(eligible(s, cands[j]));
            assert(!lex_gt(cand_weight(s, cands[j]), cand_weight(s, b)));
        }
    } else {
        assert forall|j: int| 0 <= j < cands.len() implies !(#[trigger] lookup(s, cands[j]) is Some
            && (lookup(s, cands[j]).unwrap().prdy_pending || lookup(s, cands[j]).unwrap().ring_messages > 0)) by {
            assert(!eligible(s, cands[j]));
        }
    }
}

/// The stale candidates a ranking lists are exactly the candidates that are
/// not registered or have no backlog (no ready notice pending and no
/// messages in the ring), and there are no more of them than candidates.
pub proof fn lemma_stale_are_without_backlog(s: Seq<ProducerEntry>, cands: Seq<u64>)
    ensures
        stale_of(s, cands).len() <= cands.len(),
        forall|x: u64| #[trigger] stale_of(s, cands).contains(x) <==> (cands.contains(x) && !(lookup(s, x) is Some
            && (lookup(s, x).unwrap().prdy_pending || lookup(s, x).unwrap().ring_messages > 0))),
    decreases cands.len(),
{
    if cands.len() > 0 {
        let d = cands.drop_last();
        let c = cands.last();
        lemma_stale_are_without_backlog(s, d);
        let t = stale_of(s, d);
        assert forall|x: u64| #[trigger] stale_of(s, cands).contains(x) <==> (cands.contains(x) && !(lookup(s, x) is Some
            && (lookup(s, x).unwrap().prdy_pending || lookup(s, x).unwrap().ring_messages > 0))) by {
            if d.contains(x) {
                let j = choose|j: int| 0 <= j < d.len() && d[j] == x;
                assert(cands[j] == x);
            }
            if cands.contains(x) && x != c {
                let j = choose|j: int| 0 <= j < cands.len() && cands[j] == x;
                if j == cands.len() - 1 {
                    assert(cands[j] == c);
                }
                assert(d[j] == x);
            }
            if stale_of(s, cands).contains(x) && !t.contains(x) {
                let j = choose|j: int| 0 <= j < stale_of(s, cands).len() && stale_of(s, cands)[j] == x;
                if j < t.len() {
                    assert(t[j] == x);
                }
            }
            if t.contains(x) && !eligible(s, c) {
                let j = choose|j: int| 0 <= j < t.len() && t[j] == x;
                assert(stale_of(s, cands)[j] == x);
            }
            if !eligible(s, c) {
                assert(stale_of(s, cands) == t.push(c));
                assert(stale_of(s, cands)[t.len() as int] == c);
            }
            assert(cands[cands.len() - 1] == c);
        }
    }
}

/// A ranking sends back to idle exactly the ready candidates that have no
/// backlog; every other field, and every other producer, stays as it was.
pub proof fn lemma_demoted_fields(e: ProducerEntry, cands: Seq<u64>)
    ensures
        demoted(e, cands) == (ProducerEntry {
            state: if cands.contains(e.id) && !e.prdy_pending && e.ring_messages == 0 && e.state == ProducerState::Ready {
                ProducerState::Idle
            } else {
                e.state
            },
            ..e
        }),
{
}

/// A heartbeat reporting no messages at all, ring or pending, for a
/// producer that is not busy clears its ready notice: it is left with no
/// backlog, so no ranking picks it.
pub proof fn lemma_empty_heartbeat_clears_notice(e: ProducerEntry, hb: ProducerHeartbeat, now_ms: u64)
    requires
        e.state != ProducerState::Busy,
        hb.ring_messages == 0,
        hb.pending_messages == 0,
    ensures
        !heartbeat_apply(e, hb, now_ms).0.prdy_pending,
        heartbeat_apply(e, hb, now_ms).0.ring_messages == 0,
        heartbeat_apply(e, hb, now_ms).0.pending_messages == 0,
        heartbeat_apply(e, hb, now_ms).0.state == e.state,
        !heartbeat_apply(e, hb, now_ms).1,
{
}

/// The ranking picks a candidate with backlog whose weight no other such
/// candidate beats (more messages, or as many and more bytes), and picks
/// none exactly when no candidate has backlog.
pub proof fn lemma_rank_pick_is_best(s: Seq<ProducerEntry>, cands: Seq<u64>, rr: usize)
    ensures
        match rank_pick(s, cands, rr) {
            Some(id) => {
                &&& cands.contains(id)
                &&& eligible(s, id)
                &&& forall|j: int| 0 <= j < cands.len() && eligible(s, #[trigger] cands[j])
                    ==> !lex_gt(cand_weight(s, cands[j]), cand_weight(s, id))
            },
            None => forall|j: int| 0 <= j < cands.len() ==> !eligible(s, #[trigger] cands[j]),
        },
{
    let w = best_weight(s, cands);
    let t = tier(s, cands, w);
    lemma_best_is_max(s, cands);
    if t.len() > 0 {
        let k = ((rr as nat) % t.len()) as nat;
        lemma_kth_in(t, k);
        lemma_tier_members(s, cands, w, kth_smallest(t, k));
    } else {
        assert forall|j: int| 0 <= j < cands.len() implies !eligible(s, #[trigger] cands[j]) by {
            if eligible(s, cands[j]) {
                lemma_best_attained(s, cands, j);
                let k = choose|k: int| 0 <= k < cands.len() && eligible(s, #[trigger] cands[k]) && cand_weight(s, cands[k]) == w;
                lemma_tier_has(s, cands, w, k);
            }
        }
    }
}

/// The first index of the smallest element of `t`.
fn min_index_of(t: &Vec<u64>) -> (r: usize)
    requires
        t@.len() > 0,
    ensures
        r == min_index(t@),
        r < t@.len(),
{
    let mut best: usize = 0;
    let mut i: usize = 1;
    assert(t@.take(1).len() == 1);
    while i < t.len()
        invariant
            1 <= i <= t@.len(),
            best == min_index(t@.take(i as int)),
            best < i,
        decreases t@.len() - i,
    {
        assert(t@.take(i + 1).drop_last() =~= t@.take(i as int));
        assert(t@.take(i as int)[best as int] == t@[best as int]);
        if t[i] < t[best] {
            best = i;
        }
        i = i + 1;
    }
    assert(t@.take(t@.len() as int) =~= t@);
    best
}

/// The element at index `k` of `t` sorted ascending.
fn select_kth(t: Vec<u64>, k: usize) -> (r: u64)
    requires
        k < t@.len(),
    ensures
        r == kth_smallest(t@, k as nat),
{
    let ghost orig = t@;
    let mut v = t;
    let mut j: usize = 0;
    while j < k
        invariant
            j <= k,
            k < orig.len(),
            v@.len() == orig.len() - j,
            kth_smallest(orig, k as nat) == kth_smallest(v@, (k - j) as nat),
        decreases k - j,
    {
        let m = min_index_of(&v);
        let ghost before = v@;
        v.remove(m);
        assert(kth_smallest(before, (k - j) as nat) == kth_smallest(before.remove(m as int), (k - j - 1) as nat));
        j = j + 1;
    }
    let m = min_index_of(&v);
    v[m]
}

/// Whether `v` holds `x`.
pub fn contains_u64(v: &[u64], x: u64) -> (r: bool)
    ensures
        r == v@.contains(x),
{
    let mut i: usize = 0;
    while i < v.len()
        invariant
            i <= v@.len(),
            forall|j: int| 0 <= j < i ==> v@[j] != x,
        decreases v@.len() - i,
    {
        if v[i] == x {
            return true;
        }
        i = i + 1;
    }
    false
}

// ------------------------------------------------------------ maintenance

/// Ready again: a notice is pending and the producer is ready.
pub open spec fn promoted(e: ProducerEntry) -> ProducerEntry {
    ProducerEntry { prdy_pending: true, state: ProducerState::Ready, ..e }
}

/// How the pool reconciliation leaves an entry: one with backlog that is
/// idle becomes ready; one without backlog is demoted as in a ranking.
pub open spec fn synced(e: ProducerEntry, current: Seq<u64>) -> ProducerEntry {
    if has_backlog(e) {
        if e.state == ProducerState::Idle { promoted(e) } else { e }
    } else {
        demoted(e, current)
    }
}

/// The ids of the entries with backlog that are not busy, in order.
pub open spec fn poolable_ids(s: Seq<ProducerEntry>) -> Seq<u64>
    decreases s.len(),
{
    if s.len() == 0 {
        Seq::empty()
    } else {
        let t = poolable_ids(s.drop_last());
        if has_backlog(s.last()) && s.last().state != ProducerState::Busy {
            t.push(s.last().id)
        } else {
            t
        }
    }
}

/// An entry freed when its assignment was for consumer `cid`.
pub open spec fn unassigned(e: ProducerEntry, cid: u64) -> ProducerEntry {
    if e.pending_consumer_id == Some(cid) { released(e) } else { e }
}

/// How many entries have an assignment in flight for consumer `cid`.
pub open spec fn count_assigned(s: Seq<ProducerEntry>, cid: u64) -> nat
    decreases s.len(),
{
    if s.len() == 0 {
        0
    } else {
        count_assigned(s.drop_last(), cid) + if s.last().pending_consumer_id == Some(cid) { 1nat } else { 0nat }
    }
}

proof fn lemma_count_assigned_le(s: Seq<ProducerEntry>, cid: u64)
    ensures
        count_assigned(s, cid) <= s.len(),
    decreases s.len(),
{
    if s.len() > 0 {
        lemma_count_assigned_le(s.drop_last(), cid);
    }
}

/// What a heartbeat does to an entry, and whether the producer should be
/// matched again: the reported backlog is stored and new drops counted; a
/// busy producer reporting ring backlog, or busy past `STALE_BUSY_MS`, is
/// freed (and made ready when the ring has messages); an idle producer with
/// ring backlog is made ready; with no backlog at all a pending notice is
/// dropped.
pub open spec fn heartbeat_apply(e: ProducerEntry, hb: ProducerHeartbeat, now_ms: u64) -> (ProducerEntry, bool) {
    let ring = hb.ring_messages > 0;
    let any = ring || hb.pending_messages > 0;
    let e1 = ProducerEntry {
        pending_messages: hb.pending_messages,
        pending_bytes: hb.pending_bytes,
        ring_messages: hb.ring_messages,
        ring_bytes: hb.ring_bytes,
        rate_drops: if hb.drops_total >= e.hb_drops {
            e.rate_drops.wrapping_add((hb.drops_total - e.hb_drops) as u64)
        } else {
            e.rate_drops
        },
        hb_drops: hb.drops_total,
        ..e
    };
    if e.state == ProducerState::Busy {
        let timed_out = e.busy_since_ms > 0 && now_ms.saturating_sub(e.busy_since_ms) >= STALE_BUSY_MS;
        if ring {
            (promoted(released(e1)), true)
        } else if timed_out {
            (released(e1), false)
        } else {
            (e1, false)
        }
    } else if e.state == ProducerState::Idle && ring {
        (promoted(e1), true)
    } else if !any {
        (ProducerEntry { prdy_pending: false, ..e1 }, false)
    } else {
        (e1, false)
    }
}

/// What a heartbeat does, field by field: a match is called for exactly when
/// the ring reports messages and the producer was not already ready; the
/// producer is then ready, or idle when it was busy past `STALE_BUSY_MS`
/// with an empty ring, and keeps its state otherwise; a busy producer that
/// leaves that state is no longer waiting on a consumer; and the reported
/// counts are stored.
pub proof fn lemma_heartbeat_outcome(e: ProducerEntry, hb: ProducerHeartbeat, now_ms: u64)
    ensures
        ({
            let (e2, rematch) = heartbeat_apply(e, hb, now_ms);
            &&& rematch == (hb.ring_messages > 0 && e.state != ProducerState::Ready)
            &&& e2.state == (if rematch {
                ProducerState::Ready
            } else if e.state == ProducerState::Busy && e.busy_since_ms > 0
                && now_ms.saturating_sub(e.busy_since_ms) >= STALE_BUSY_MS {
                ProducerState::Idle
            } else {
                e.state
            })
            &&& (e.state == ProducerState::Busy && e2.state != ProducerState::Busy) ==> (e2.pending_consumer_id is None && e2.busy_since_ms == 0)
            &&& rematch ==> e2.prdy_pending
            &&& (e.state != ProducerState::Busy && hb.ring_messages == 0 && hb.pending_messages == 0) ==> !e2.prdy_pending
            &&& e2.hb_drops == hb.drops_total
            &&& e2.id == e.id
            &&& e2.pending_messages == hb.pending_messages
            &&& e2.pending_bytes == hb.pending_bytes
            &&& e2.ring_messages == hb.ring_messages
            &&& e2.ring_bytes == hb.ring_bytes
        }),
{
}

/// The entries after a heartbeat for `id` at `now_ms`.
pub open spec fn heartbeat_seq(s: Seq<ProducerEntry>, id: u64, hb: ProducerHeartbeat, now_ms: u64) -> Seq<ProducerEntry> {
    update_id(s, id, |e: ProducerEntry| heartbeat_apply(e, hb, now_ms).0)
}

/// Whether a heartbeat for `id` at `now_ms` calls for a match.
pub open spec fn heartbeat_rematch(s: Seq<ProducerEntry>, id: u64, hb: ProducerHeartbeat, now_ms: u64) -> bool {
    match lookup(s, id) {
        Some(e) => heartbeat_apply(e, hb, now_ms).1,
        None => false,
    }
}

/// The sum of `f` over the entries.
pub open spec fn sum_of(s: Seq<ProducerEntry>, f: spec_fn(ProducerEntry) -> nat) -> nat
    decreases s.len(),
{
    if s.len() == 0 {
        0
    } else {
        sum_of(s.drop_last(), f) + f(s.last())
    }
}

/// The heartbeat drop totals, added up without passing `u64::MAX`.
pub open spec fn drops_sum(s: Seq<ProducerEntry>) -> u64
    decreases s.len(),
{
    if s.len() == 0 {
        0
    } else {
        drops_sum(s.drop_last()).saturating_add(s.last().hb_drops)
    }
}

proof fn lemma_sum_prefix(s: Seq<ProducerEntry>, f: spec_fn(ProducerEntry) -> nat, i: int)
    requires
        0 <= i <= s.len(),
    ensures
        sum_of(s.take(i), f) <= sum_of(s, f),
    decreases s.len() - i,
{
    if i < s.len() {
        lemma_sum_prefix(s, f, i + 1);
        assert(s.take(i + 1).drop_last() =~= s.take(i));
    } else {
        assert(s.take(i) =~= s);
    }
}

/// Backlog added up over all producers.
#[derive(Debug, Clone, Copy, Default)]
pub struct ProducerBacklogTotals {
    pub pending_messages: u64,
    pub pending_bytes: u64,
    pub ring_messages: u64,
    pub ring_bytes: u64,
    pub drops_total: u64,
}

impl ProducerBacklogTotals {
    /// Messages not yet delivered: pending plus ring.
    pub fn backlog_messages(&self) -> (n: u64)
        requires
            self.pending_messages + self.ring_messages <= u64::MAX,
        ensures
            n == self.pending_messages + self.ring_messages,
    {
        self.pending_messages + self.ring_messages
    }

    /// Bytes not yet delivered: pending plus ring.
    pub fn backlog_bytes(&self) -> (n: u64)
        requires
            self.pending_bytes + self.ring_bytes <= u64::MAX,
        ensures
            n == self.pending_bytes + self.ring_bytes,
    {
        self.pending_bytes + self.ring_bytes
    }
}

/// Whether each entry of `s` carries the four backlog counts of the last
/// heartbeat `hb_of` gives for its id.
pub open spec fn counts_from(s: Seq<ProducerEntry>, hb_of: spec_fn(u64) -> ProducerHeartbeat) -> bool {
    forall|i: int| 0 <= i < s.len() ==> {
        let hb = hb_of(#[trigger] s[i].id);
        &&& s[i].pending_messages == hb.pending_messages
        &&& s[i].pending_bytes == hb.pending_bytes
        &&& s[i].ring_messages == hb.ring_messages
        &&& s[i].ring_bytes == hb.ring_bytes
    }
}

/// The messages the heartbeats `hb_of` report for the producers of `s`,
/// pending plus ring.
pub open spec fn reported_messages(s: Seq<ProducerEntry>, hb_of: spec_fn(u64) -> ProducerHeartbeat) -> nat
    decreases s.len(),
{
    if s.len() == 0 {
        0
    } else {
        reported_messages(s.drop_last(), hb_of) + hb_of(s.last().id).pending_messages as nat + hb_of(s.last().id).ring_messages as nat
    }
}

/// The bytes the heartbeats `hb_of` report for the producers of `s`, pending
/// plus ring.
pub open spec fn reported_bytes(s: Seq<ProducerEntry>, hb_of: spec_fn(u64) -> ProducerHeartbeat) -> nat
    decreases s.len(),
{
    if s.len() == 0 {
        0
    } else {
        reported_bytes(s.drop_last(), hb_of) + hb_of(s.last().id).pending_bytes as nat + hb_of(s.last().id).ring_bytes as nat
    }
}

proof fn lemma_sum_bound(s: Seq<ProducerEntry>, f: spec_fn(ProducerEntry) -> nat)
    requires
        forall|e: ProducerEntry| #[trigger] f(e) <= u32::MAX,
    ensures
        sum_of(s, f) <= s.len() * u32::MAX,
    decreases s.len(),
{
    if s.len() > 0 {
        lemma_sum_bound(s.drop_last(), f);
        assert(f(s.last()) <= u32::MAX);
        assert((s.len() - 1) * u32::MAX + u32::MAX == s.len() * u32::MAX) by (nonlinear_arith);
    }
}

/// A heartbeat for `id` leaves the producer with exactly the pending and
/// ring counts it reports, and every other producer as it was.
pub proof fn lemma_heartbeat_sets_counts(s: Seq<ProducerEntry>, id: u64, hb: ProducerHeartbeat, now_ms: u64)
    ensures
        heartbeat_seq(s, id, hb, now_ms).len() == s.len(),
        forall|i: int| #![trigger heartbeat_seq(s, id, hb, now_ms)[i]] 0 <= i < s.len() ==> {
            let e = heartbeat_seq(s, id, hb, now_ms)[i];
            &&& e.id == s[i].id
            &&& s[i].id == id ==> (e.pending_messages == hb.pending_messages && e.pending_bytes == hb.pending_bytes
                && e.ring_messages == hb.ring_messages && e.ring_bytes == hb.ring_bytes)
            &&& s[i].id != id ==> e == s[i]
        },
{
}

/// The backlog totals are what the producers' last heartbeats report: when
/// each entry carries the counts of its last heartbeat, the pending plus
/// ring messages, and the pending plus ring bytes, summed over the entries
/// equal the sums over those heartbeats.
pub proof fn lemma_backlog_is_reported(s: Seq<ProducerEntry>, hb_of: spec_fn(u64) -> ProducerHeartbeat)
    requires
        counts_from(s, hb_of),
    ensures
        sum_of(s, |e: ProducerEntry| e.pending_messages as nat) + sum_of(s, |e: ProducerEntry| e.ring_messages as nat)
            == reported_messages(s, hb_of),
        sum_of(s, |e: ProducerEntry| e.pending_bytes as nat) + sum_of(s, |e: ProducerEntry| e.ring_bytes as nat)
            == reported_bytes(s, hb_of),
    decreases s.len(),
{
    if s.len() > 0 {
        let d = s.drop_last();
        assert(counts_from(d, hb_of)) by {
            assert forall|i: int| 0 <= i < d.len() implies #[trigger] d[i] == s[i] by {}
        }
        lemma_backlog_is_reported(d, hb_of);
        let last = s.last();
        assert(last == s[s.len() - 1]);
        assert(hb_of(s[s.len() - 1].id).pending_messages == last.pending_messages);
    }
}

/// The producers, with the counts of those ready and busy kept as the
/// entries change.
///
/// Entries are kept in a `Vec` in increasing id order (see `wf`) rather
/// than a `HashMap<u64, _>`: rankings, listings and maintenance walk all
/// producers, and a `HashMap` is walked in an order that its per-process
/// random hasher seed decides, which no contract could name.
pub struct ProducerRegistry {
    next_id: u64,
    ready_count: u64,
    busy_count: u64,
    entries: Vec<ProducerEntry>,
}

impl View for ProducerRegistry {
    type V = Seq<ProducerEntry>;

    /// The producers, in the order of their ids.
    closed spec fn view(&self) -> Seq<ProducerEntry> {
        self.entries@
    }
}

impl ProducerRegistry {
    /// The id the next registration gets.
    pub closed spec fn next_id(&self) -> u64 {
        self.next_id
    }

    pub closed spec fn wf(&self) -> bool {
        &&& ids_increasing(self.entries@)
        &&& forall|i: int| 0 <= i < self.entries@.len() ==> self.entries@[i].id < self.next_id
        &&& self.next_id >= 1
        &&& self.ready_count == count_state(self.entries@, ProducerState::Ready)
        &&& self.busy_count == count_state(self.entries@, ProducerState::Busy)
    }

    /// In every state the registry reaches, the ready and busy counts are
    /// the numbers of producer ids that `state_of` reports ready and busy.
    pub proof fn lemma_counts_are_ids(&self)
        requires
            self.wf(),
        ensures
            count_state(self@, ProducerState::Ready) == ids_in_state(self@, ProducerState::Ready).len(),
            count_state(self@, ProducerState::Busy) == ids_in_state(self@, ProducerState::Busy).len(),
    {
        lemma_count_state_is_ids(self.entries@, ProducerState::Ready);
        lemma_count_state_is_ids(self.entries@, ProducerState::Busy);
    }

    /// No two producers share an id, and `lookup` finds each one.
    pub proof fn lemma_ids_unique(&self)
        requires
            self.wf(),
        ensures
            forall|j: int, k: int| 0 <= j < self@.len() && 0 <= k < self@.len() && #[trigger] self@[j].id == #[trigger] self@[k].id ==> j == k,
            forall|j: int| 0 <= j < self@.len() ==> lookup(self@, #[trigger] self@[j].id) == Some(self@[j]),
    {
        assert forall|j: int| 0 <= j < self@.len() implies lookup(self@, #[trigger] self@[j].id) == Some(self@[j]) by {
            lemma_lookup_at(self.entries@, j);
        }
    }

    pub fn new() -> (r: Self)
        ensures
            r.wf(),
            r@ == Seq::<ProducerEntry>::empty(),
            r.next_id() == 1,
    {
        ProducerRegistry { next_id: 1, ready_count: 0, busy_count: 0, entries: Vec::new() }
    }

    /// How many producers are ready.
    pub fn ready_count(&self) -> (n: u64)
        requires
            self.wf(),
        ensures
            n == count_state(self@, ProducerState::Ready),
    {
        self.ready_count
    }

    /// How many producers are busy.
    pub fn busy_count(&self) -> (n: u64)
        requires
            self.wf(),
        ensures
            n == count_state(self@, ProducerState::Busy),
    {
        self.busy_count
    }

    /// The index of the entry with id `id`.
    fn find(&self, id: u64) -> (r: Option<usize>)
        requires
            self.wf(),
        ensures
            match r {
                Some(i) => i < self@.len() && self@[i as int].id == id && lookup(self@, id) == Some(self@[i as int]),
                None => lookup(self@, id) is None && forall|j: int| 0 <= j < self@.len() ==> self@[j].id != id,
            },
    {
        let mut i: usize = 0;
        while i < self.entries.len()
            invariant
                self.wf(),
                i <= self.entries@.len(),
                forall|j: int| 0 <= j < i ==> self.entries@[j].id != id,
            decreases self.entries@.len() - i,
        {
            if self.entries[i].id == id {
                proof {
                    lemma_lookup_at(self.entries@, i as int);
                }
                return Some(i);
            }
            i = i + 1;
        }
        proof {
            lemma_lookup_none(self.entries@, id);
        }
        None
    }

    /// The entry with id `id`.
    pub fn entry(&self, id: u64) -> (r: Option<&ProducerEntry>)
        requires
            self.wf(),
        ensures
            match r {
                Some(e) => lookup(self@, id) == Some(*e),
                None => lookup(self@, id) is None,
            },
    {
        match self.find(id) {
            Some(i) => Some(&self.entries[i]),
            None => None,
        }
    }

    /// The ids of all producers, in increasing order.
    pub fn ids(&self) -> (r: Vec<u64>)
        requires
            self.wf(),
        ensures
            r@ == self@.map_values(|e: ProducerEntry| e.id),
    {
        let mut out: Vec<u64> = Vec::new();
        let mut i: usize = 0;
        while i < self.entries.len()
            invariant
                i <= self.entries@.len(),
                out@ == self.entries@.take(i as int).map_values(|e: ProducerEntry| e.id),
            decreases self.entries@.len() - i,
        {
            out.push(self.entries[i].id);
            i = i + 1;
            assert(out@ =~= self.entries@.take(i as int).map_values(|e: ProducerEntry| e.id));
        }
        assert(self.entries@.take(i as int) =~= self.entries@);
        out
    }

    /// Moves entry `i` to state `st`, keeping the counts.
    fn set_state_at(&mut self, i: usize, st: ProducerState)
        requires
            old(self).wf(),
            i < old(self)@.len(),
        ensures
            final(self).wf(),
            final(self)@ == old(self)@.update(i as int, with_state(old(self)@[i as int], st)),
            final(self).next_id() == old(self).next_id(),
    {
        let ghost s = self.entries@;
        let n = self.entries.len();
        let old_state = self.entries[i].state;
        proof {
            lemma_count_update(s, i as int, with_state(s[i as int], st), ProducerState::Ready);
            lemma_count_update(s, i as int, with_state(s[i as int], st), ProducerState::Busy);
            lemma_count_le_len(s.update(i as int, with_state(s[i as int], st)), ProducerState::Ready);
            lemma_count_le_len(s.update(i as int, with_state(s[i as int], st)), ProducerState::Busy);
            assert(s.len() == n);
        }
        if old_state != st {
            match old_state {
                ProducerState::Ready => {
                    self.ready_count = self.ready_count - 1;
                },
                ProducerState::Busy => {
                    self.busy_count = self.busy_count - 1;
                },
                ProducerState::Idle => {},
            }
            match st {
                ProducerState::Ready => {
                    self.ready_count = self.ready_count + 1;
                },
                ProducerState::Busy => {
                    self.busy_count = self.busy_count + 1;
                },
                ProducerState::Idle => {},
            }
        }
        self.entries[i].state = st;
        assert(self.entries@ =~= s.update(i as int, with_state(s[i as int], st)));
    }

    /// Registers a producer connected at `now_secs`; its id is the next one.
    pub fn register_at(&mut self, addr: String, now_secs: u64) -> (id: u64)
        requires
            old(self).wf(),
            old(self).next_id() < u64::MAX,
        ensures
            final(self).wf(),
            id == old(self).next_id(),
            final(self).next_id() == id + 1,
            lookup(old(self)@, id) is None,
            final(self)@ == old(self)@.push(ProducerEntry {
                id,
                addr,
                connected_at: now_secs,
                state: ProducerState::Idle,
                pending_messages: 0,
                pending_bytes: 0,
                ring_messages: 0,
                ring_bytes: 0,
                hb_drops: 0,
                rate_batches: 0,
                rate_msgs: 0,
                rate_errors: 0,
                rate_drops: 0,
                pending_consumer_id: None,
                busy_since_ms: 0,
                prdy_pending: false,
            }),
    {
        let id = self.next_id;
        proof {
            lemma_lookup_none(self.entries@, id);
        }
        self.next_id = self.next_id + 1;
        self.entries.push(ProducerEntry {
            id,
            addr,
            connected_at: now_secs,
            state: ProducerState::Idle,
            pending_messages: 0,
            pending_bytes: 0,
            ring_messages: 0,
            ring_bytes: 0,
            hb_drops: 0,
            rate_batches: 0,
            rate_msgs: 0,
            rate_errors: 0,
            rate_drops: 0,
            pending_consumer_id: None,
            busy_since_ms: 0,
            prdy_pending: false,
        });
        assert(self.entries@.drop_last() =~= old(self).entries@);
        id
    }

    /// Registers a producer connected now.
    /// Whether another id can be handed out (`register` requires it).
    pub fn can_register(&self) -> (r: bool)
        ensures
            r == (self.next_id() < u64::MAX),
    {
        self.next_id < 0xFFFF_FFFF_FFFF_FFFFu64
    }

    pub fn register(&mut self, addr: String) -> (id: u64)
        requires
            old(self).wf(),
            old(self).next_id() < u64::MAX,
        ensures
            final(self).wf(),
            id == old(self).next_id(),
            final(self).next_id() == id + 1,
            final(self)@.len() == old(self)@.len() + 1,
            final(self)@.drop_last() == old(self)@,
            final(self)@.last() == (ProducerEntry {
                id,
                addr,
                connected_at: final(self)@.last().connected_at,
                state: ProducerState::Idle,
                pending_messages: 0,
                pending_bytes: 0,
                ring_messages: 0,
                ring_bytes: 0,
                hb_drops: 0,
                rate_batches: 0,
                rate_msgs: 0,
                rate_errors: 0,
                rate_drops: 0,
                pending_consumer_id: None,
                busy_since_ms: 0,
                prdy_pending: false,
            }),
    {
        let now = now_secs();
        let id = self.register_at(addr, now);
        assert(self@.drop_last() =~= old(self)@);
        id
    }

    /// Forgets producer `id`.
    pub fn remove(&mut self, id: u64)
        requires
            old(self).wf(),
        ensures
            final(self).wf(),
            final(self)@ == without(old(self)@, id),
            final(self).next_id() == old(self).next_id(),
    {
        match self.find(id) {
            Some(i) => {
                let ghost s = self.entries@;
                proof {
                    lemma_without_at(s, i as int);
                    lemma_count_remove(s, i as int, ProducerState::Ready);
                    lemma_count_remove(s, i as int, ProducerState::Busy);
                }
                match self.entries[i].state {
                    ProducerState::Ready => {
                        self.ready_count = self.ready_count - 1;
                    },
                    ProducerState::Busy => {
                        self.busy_count = self.busy_count - 1;
                    },
                    ProducerState::Idle => {},
                }
                self.entries.remove(i);
                assert forall|a: int, b: int| 0 <= a < b < self.entries@.len() implies self.entries@[a].id < self.entries@[b].id by {
                    if a >= i {
                        assert(self.entries@[a] == s[a + 1]);
                    }
                    if b >= i {
                        assert(self.entries@[b] == s[b + 1]);
                    }
                }
                assert forall|j: int| 0 <= j < self.entries@.len() implies self.entries@[j].id < self.next_id by {
                    if j >= i {
                        assert(self.entries@[j] == s[j + 1]);
                    }
                }
            },
            None => {
                proof {
                    lemma_without_none(self.entries@, id);
                }
            },
        }
    }

    /// Moves producer `id` to state `st`.
    pub fn set_state(&mut self, id: u64, st: ProducerState)
        requires
            old(self).wf(),
        ensures
            final(self).wf(),
            final(self)@ == update_id(old(self)@, id, |e: ProducerEntry| with_state(e, st)),
            final(self).next_id() == old(self).next_id(),
    {
        let ghost s = self.entries@;
        match self.find(id) {
            Some(i) => {
                self.set_state_at(i, st);
                assert(self@ =~= update_id(s, id, |e: ProducerEntry| with_state(e, st)));
            },
            None => {
                assert(self@ =~= update_id(s, id, |e: ProducerEntry| with_state(e, st)));
            },
        }
    }

    /// The state of producer `id`.
    pub fn state_of(&self, id: u64) -> (r: Option<ProducerState>)
        requires
            self.wf(),
        ensures
            r == (match lookup(self@, id) {
                Some(e) => Some(e.state),
                None => None,
            }),
    {
        match self.find(id) {
            Some(i) => Some(self.entries[i].state),
            None => None,
        }
    }

    /// Whether producer `id` has something a match can drain.
    pub fn has_backlog(&self, id: u64) -> (r: bool)
        requires
            self.wf(),
        ensures
            r == (lookup(self@, id) matches Some(e) && has_backlog(e)),
    {
        match self.find(id) {
            Some(i) => self.entries[i].prdy_pending || self.entries[i].ring_messages > 0,
            None => false,
        }
    }

    /// The ranking weight of producer `id`: messages first, bytes break
    /// ties; `(0, 0)` for an unknown id.
    pub fn backlog_weight(&self, id: u64) -> (r: (u64, u64))
        requires
            self.wf(),
        ensures
            r == (match lookup(self@, id) {
                Some(e) => weight_of(e),
                None => (0u64, 0u64),
            }),
    {
        match self.find(id) {
            Some(i) => entry_weight(&self.entries[i]),
            None => (0, 0),
        }
    }

    /// Notes a ready notice from producer `id`.
    pub fn mark_prdy(&mut self, id: u64)
        requires
            old(self).wf(),
        ensures
            final(self).wf(),
            final(self)@ == update_id(old(self)@, id, |e: ProducerEntry| ProducerEntry { prdy_pending: true, ..e }),
            final(self).next_id() == old(self).next_id(),
    {
        let ghost s = self.entries@;
        match self.find(id) {
            Some(i) => {
                self.entries[i].prdy_pending = true;
                proof {
                    assert(self.entries@ =~= s.update(i as int, self.entries@[i as int]));
                    lemma_same_shape(s, i as int, self.entries@[i as int], self.next_id);
                }
            },
            None => {},
        }
        assert(self@ =~= update_id(s, id, |e: ProducerEntry| ProducerEntry { prdy_pending: true, ..e }));
    }

    /// Producer `id` has nothing to offer after all: no pending notice, idle.
    pub fn clear_stale_ready(&mut self, id: u64)
        requires
            old(self).wf(),
        ensures
            final(self).wf(),
            final(self)@ == update_id(
                old(self)@,
                id,
                |e: ProducerEntry| ProducerEntry { prdy_pending: false, state: ProducerState::Idle, ..e },
            ),
            final(self).next_id() == old(self).next_id(),
    {
        let ghost s = self.entries@;
        match self.find(id) {
            Some(i) => {
                self.set_state_at(i, ProducerState::Idle);
                let ghost s1 = self.entries@;
                self.entries[i].prdy_pending = false;
                proof {
                    assert(self.entries@ =~= s1.update(i as int, self.entries@[i as int]));
                    lemma_same_shape(s1, i as int, self.entries@[i as int], self.next_id);
                }
            },
            None => {},
        }
        assert(self@ =~= update_id(
            s,
            id,
            |e: ProducerEntry| ProducerEntry { prdy_pending: false, state: ProducerState::Idle, ..e },
        ));
    }

    /// Producer `id` was sent an assignment for `consumer_id` at `now_ms`.
    pub fn mark_assigned_at(&mut self, id: u64, consumer_id: u64, now_ms: u64)
        requires
            old(self).wf(),
        ensures
            final(self).wf(),
            final(self)@ == update_id(
                old(self)@,
                id,
                |e: ProducerEntry| ProducerEntry {
                    state: ProducerState::Busy,
                    pending_consumer_id: Some(consumer_id),
                    busy_since_ms: now_ms,
                    ..e
                },
            ),
            final(self).next_id() == old(self).next_id(),
    {
        let ghost s = self.entries@;
        match self.find(id) {
            Some(i) => {
                self.set_state_at(i, ProducerState::Busy);
                let ghost s1 = self.entries@;
                self.entries[i].pending_consumer_id = Some(consumer_id);
                self.entries[i].busy_since_ms = now_ms;
                proof {
                    assert(self.entries@ =~= s1.update(i as int, self.entries@[i as int]));
                    lemma_same_shape(s1, i as int, self.entries@[i as int], self.next_id);
                }
            },
            None => {},
        }
        assert(self@ =~= update_id(
            s,
            id,
            |e: ProducerEntry| ProducerEntry {
                state: ProducerState::Busy,
                pending_consumer_id: Some(consumer_id),
                busy_since_ms: now_ms,
                ..e
            },
        ));
    }

    /// Producer `id` was sent an assignment for `consumer_id`, now.
    pub fn mark_assigned(&mut self, id: u64, consumer_id: u64)
        requires
            old(self).wf(),
        ensures
            final(self).wf(),
            final(self)@.len() == old(self)@.len(),
            forall|j: int| 0 <= j < old(self)@.len() ==> #[trigger] final(self)@[j] == if old(self)@[j].id == id {
                ProducerEntry {
                    state: ProducerState::Busy,
                    pending_consumer_id: Some(consumer_id),
                    busy_since_ms: final(self)@[j].busy_since_ms,
                    ..old(self)@[j]
                }
            } else {
                old(self)@[j]
            },
            final(self).next_id() == old(self).next_id(),
    {
        let now = unix_ms();
        self.mark_assigned_at(id, consumer_id, now);
    }

    /// Frees entry `i`: idle, no assignment in flight.
    fn release_at(&mut self, i: usize)
        requires
            old(self).wf(),
            i < old(self)@.len(),
        ensures
            final(self).wf(),
            final(self)@ == old(self)@.update(i as int, released(old(self)@[i as int])),
            final(self).next_id() == old(self).next_id(),
    {
        let ghost s = self.entries@;
        self.set_state_at(i, ProducerState::Idle);
        let ghost s1 = self.entries@;
        self.entries[i].pending_consumer_id = None;
        self.entries[i].busy_since_ms = 0;
        proof {
            assert(self.entries@ =~= s1.update(i as int, self.entries@[i as int]));
            lemma_same_shape(s1, i as int, self.entries@[i as int], self.next_id);
        }
        assert(self.entries@ =~= s.update(i as int, released(s[i as int])));
    }

    /// Frees producer `id` when it is busy (a notice or heartbeat shows it
    /// free while the master still waits on its assignment); `true` when it was.
    pub fn clear_stale_busy(&mut self, id: u64, _reason: &str) -> (r: bool)
        requires
            old(self).wf(),
        ensures
            final(self).wf(),
            r == (lookup(old(self)@, id) matches Some(e) && e.state == ProducerState::Busy),
            final(self)@ == if r { update_id(old(self)@, id, |e: ProducerEntry| released(e)) } else { old(self)@ },
            final(self).next_id() == old(self).next_id(),
    {
        let ghost s = self.entries@;
        match self.find(id) {
            Some(i) => {
                if self.entries[i].state != ProducerState::Busy {
                    return false;
                }
                self.release_at(i);
                assert(self@ =~= update_id(s, id, |e: ProducerEntry| released(e)));
                true
            },
            None => false,
        }
    }

    /// Takes the consumer of producer `id`'s assignment in flight.
    pub fn take_pending_consumer(&mut self, id: u64) -> (r: Option<u64>)
        requires
            old(self).wf(),
        ensures
            final(self).wf(),
            r == (match lookup(old(self)@, id) {
                Some(e) => e.pending_consumer_id,
                None => None,
            }),
            final(self)@ == update_id(old(self)@, id, |e: ProducerEntry| ProducerEntry { pending_consumer_id: None, ..e }),
            final(self).next_id() == old(self).next_id(),
    {
        let ghost s = self.entries@;
        let r = match self.find(id) {
            Some(i) => {
                let c = self.entries[i].pending_consumer_id;
                self.entries[i].pending_consumer_id = None;
                proof {
                    assert(self.entries@ =~= s.update(i as int, self.entries@[i as int]));
                    lemma_same_shape(s, i as int, self.entries@[i as int], self.next_id);
                }
                c
            },
            None => None,
        };
        assert(self@ =~= update_id(s, id, |e: ProducerEntry| ProducerEntry { pending_consumer_id: None, ..e }));
        r
    }

    /// Producer `id` delivered a batch of `msg_count` messages: counted, and
    /// the producer is free again with no notice pending.
    pub fn record_delivery(&mut self, id: u64, msg_count: u64)
        requires
            old(self).wf(),
        ensures
            final(self).wf(),
            final(self)@ == update_id(
                old(self)@,
                id,
                |e: ProducerEntry| ProducerEntry {
                    rate_batches: e.rate_batches.wrapping_add(1),
                    rate_msgs: e.rate_msgs.wrapping_add(msg_count),
                    prdy_pending: false,
                    ..released(e)
                },
            ),
            final(self).next_id() == old(self).next_id(),
    {
        let ghost s = self.entries@;
        match self.find(id) {
            Some(i) => {
                self.release_at(i);
                let ghost s1 = self.entries@;
                self.entries[i].rate_batches = self.entries[i].rate_batches.wrapping_add(1);
                self.entries[i].rate_msgs = self.entries[i].rate_msgs.wrapping_add(msg_count);
                self.entries[i].prdy_pending = false;
                proof {
                    assert(self.entries@ =~= s1.update(i as int, self.entries@[i as int]));
                    lemma_same_shape(s1, i as int, self.entries@[i as int], self.next_id);
                }
            },
            None => {},
        }
        assert(self@ =~= update_id(
            s,
            id,
            |e: ProducerEntry| ProducerEntry {
                rate_batches: e.rate_batches.wrapping_add(1),
                rate_msgs: e.rate_msgs.wrapping_add(msg_count),
                prdy_pending: false,
                ..released(e)
            },
        ));
    }

    /// Producer `id` failed a delivery: counted, and the producer is free
    /// again with no notice pending.
    pub fn record_failure(&mut self, id: u64)
        requires
            old(self).wf(),
        ensures
            final(self).wf(),
            final(self)@ == update_id(
                old(self)@,
                id,
                |e: ProducerEntry| ProducerEntry {
                    rate_errors: e.rate_errors.wrapping_add(1),
                    prdy_pending: false,
                    ..released(e)
                },
            ),
            final(self).next_id() == old(self).next_id(),
    {
        let ghost s = self.entries@;
        match self.find(id) {
            Some(i) => {
                self.release_at(i);
                let ghost s1 = self.entries@;
                self.entries[i].rate_errors = self.entries[i].rate_errors.wrapping_add(1);
                self.entries[i].prdy_pending = false;
                proof {
                    assert(self.entries@ =~= s1.update(i as int, self.entries@[i as int]));
                    lemma_same_shape(s1, i as int, self.entries@[i as int], self.next_id);
                }
            },
            None => {},
        }
        assert(self@ =~= update_id(
            s,
            id,
            |e: ProducerEntry| ProducerEntry {
                rate_errors: e.rate_errors.wrapping_add(1),
                prdy_pending: false,
                ..released(e)
            },
        ));
    }

    /// Every ready producer among `cands` with no backlog drops to idle.
    fn demote_stale(&mut self, cands: &[u64])
        requires
            old(self).wf(),
        ensures
            final(self).wf(),
            final(self)@ == old(self)@.map_values(|e: ProducerEntry| demoted(e, cands@)),
            final(self).next_id() == old(self).next_id(),
    {
        let ghost s0 = self.entries@;
        let mut i: usize = 0;
        while i < self.entries.len()
            invariant
                self.wf(),
                self.next_id == old(self).next_id,
                self.entries@.len() == s0.len(),
                i <= s0.len(),
                forall|j: int| 0 <= j < i ==> self.entries@[j] == demoted(s0[j], cands@),
                forall|j: int| i <= j < s0.len() ==> self.entries@[j] == s0[j],
            decreases s0.len() - i,
        {
            let backlog = self.entries[i].prdy_pending || self.entries[i].ring_messages > 0;
            // With no backlog there is no pending notice to clear either.
            if !backlog && self.entries[i].state == ProducerState::Ready && contains_u64(cands, self.entries[i].id) {
                self.set_state_at(i, ProducerState::Idle);
            }
            i = i + 1;
        }
        assert(self.entries@ =~= s0.map_values(|e: ProducerEntry| demoted(e, cands@)));
    }

    /// Ranks the ready candidates: the eligible ones (known, with backlog)
    /// of the highest weight form a tier, and the tier's member at the
    /// round-robin position (by id) is picked; ties advance the position.
    /// The others are returned as stale, and a stale one that is ready goes
    /// back to idle.
    pub fn rank_ready_candidates(&mut self, candidates: &[u64], producer_rr: &mut usize) -> (r: (Option<u64>, Vec<u64>))
        requires
            old(self).wf(),
            tier(old(self)@, candidates@, best_weight(old(self)@, candidates@)).len() > 1 ==> *old(producer_rr) < usize::MAX,
        ensures
            final(self).wf(),
            r.0 == rank_pick(old(self)@, candidates@, *old(producer_rr)),
            r.0 matches Some(b) ==> forall|j: int| 0 <= j < candidates@.len() && #[trigger] lookup(old(self)@, candidates@[j]) is Some
                && (lookup(old(self)@, candidates@[j]).unwrap().prdy_pending || lookup(old(self)@, candidates@[j]).unwrap().ring_messages > 0) ==> {
                    let c = lookup(old(self)@, candidates@[j]).unwrap();
                    let e = lookup(old(self)@, b).unwrap();
                    let cm: int = if c.pending_messages + c.ring_messages == 0 && c.prdy_pending { 1 } else { c.pending_messages + c.ring_messages };
                    let em: int = if e.pending_messages + e.ring_messages == 0 && e.prdy_pending { 1 } else { e.pending_messages + e.ring_messages };
                    !(cm > em || (cm == em && c.pending_bytes + c.ring_bytes > e.pending_bytes + e.ring_bytes))
                },
            r.1@ == stale_of(old(self)@, candidates@),
            *final(producer_rr) == rank_next_rr(old(self)@, candidates@, *old(producer_rr)),
            final(self)@ == old(self)@.map_values(|e: ProducerEntry| demoted(e, candidates@)),
            final(self).next_id() == old(self).next_id(),
    {
        proof {
            lemma_rank_messages_then_bytes(old(self)@, candidates@, *old(producer_rr));
        }
        let ghost s = self.entries@;
        let mut best_msgs: u64 = 0;
        let mut best_bytes: u64 = 0;
        let mut tier_v: Vec<u64> = Vec::new();
        let mut stale: Vec<u64> = Vec::new();
        let mut k: usize = 0;
        while k < candidates.len()
            invariant
                self.wf(),
                self.entries@ == s,
                k <= candidates@.len(),
                (best_msgs, best_bytes) == best_weight(s, candidates@.take(k as int)),
                tier_v@ == tier(s, candidates@.take(k as int), (best_msgs, best_bytes)),
                stale@ == stale_of(s, candidates@.take(k as int)),
            decreases candidates@.len() - k,
        {
            let id = candidates[k];
            let ghost pre = candidates@.take(k as int);
            assert(candidates@.take(k + 1).drop_last() =~= pre);
            assert(candidates@.take(k + 1).last() == id);
            match self.find(id) {
                None => {
                    stale.push(id);
                },
                Some(i) => {
                    if !(self.entries[i].prdy_pending || self.entries[i].ring_messages > 0) {
                        stale.push(id);
                    } else {
                        let (msgs, bytes) = entry_weight(&self.entries[i]);
                        if msgs > best_msgs || (msgs == best_msgs && bytes > best_bytes) {
                            proof {
                                lemma_best_is_max(s, pre);
                                lemma_tier_empty(s, pre, (msgs, bytes));
                            }
                            best_msgs = msgs;
                            best_bytes = bytes;
                            tier_v = Vec::new();
                            tier_v.push(id);
                            assert(tier_v@ =~= Seq::<u64>::empty().push(id));
                        } else if msgs == best_msgs && bytes == best_bytes {
                            tier_v.push(id);
                        }
                    }
                },
            }
            k = k + 1;
        }
        assert(candidates@.take(candidates@.len() as int) =~= candidates@);
        self.demote_stale(candidates);
        let n = tier_v.len();
        if n == 0 {
            return (None, stale);
        }
        if n == 1 {
            assert(tier_v@[0] == tier_v@[min_index(tier_v@)]);
            return (Some(tier_v[0]), stale);
        }
        let pick = *producer_rr % n;
        *producer_rr = (*producer_rr + 1) % n;
        let chosen = select_kth(tier_v, pick);
        (Some(chosen), stale)
    }

    /// Reconciles the ready pool `current` with the entries: returns the
    /// producers to add (those with backlog that are not busy, in id order)
    /// and those to remove (pool members unknown or without backlog). Idle
    /// producers with backlog become ready with a pending notice; ready pool
    /// members without backlog go back to idle.
    pub fn sync_matcher_ready_state(&mut self, current: &[u64]) -> (r: (Vec<u64>, Vec<u64>))
        requires
            old(self).wf(),
        ensures
            final(self).wf(),
            r.0@ == poolable_ids(old(self)@),
            r.1@ == stale_of(old(self)@, current@),
            final(self)@ == old(self)@.map_values(|e: ProducerEntry| synced(e, current@)),
            final(self).next_id() == old(self).next_id(),
    {
        let ghost s0 = self.entries@;
        let mut remove: Vec<u64> = Vec::new();
        let mut k: usize = 0;
        while k < current.len()
            invariant
                self.wf(),
                self.entries@ == s0,
                k <= current@.len(),
                remove@ == stale_of(s0, current@.take(k as int)),
            decreases current@.len() - k,
        {
            let id = current[k];
            assert(current@.take(k + 1).drop_last() =~= current@.take(k as int));
            assert(current@.take(k + 1).last() == id);
            match self.find(id) {
                None => {
                    remove.push(id);
                },
                Some(i) => {
                    if !(self.entries[i].prdy_pending || self.entries[i].ring_messages > 0) {
                        remove.push(id);
                    }
                },
            }
            k = k + 1;
        }
        assert(current@.take(current@.len() as int) =~= current@);
        let mut add: Vec<u64> = Vec::new();
        let mut i: usize = 0;
        while i < self.entries.len()
            invariant
                self.wf(),
                self.next_id == old(self).next_id,
                self.entries@.len() == s0.len(),
                i <= s0.len(),
                forall|j: int| 0 <= j < i ==> self.entries@[j] == synced(s0[j], current@),
                forall|j: int| i <= j < s0.len() ==> self.entries@[j] == s0[j],
                add@ == poolable_ids(s0.take(i as int)),
            decreases s0.len() - i,
        {
            assert(s0.take(i + 1).drop_last() =~= s0.take(i as int));
            let backlog = self.entries[i].prdy_pending || self.entries[i].ring_messages > 0;
            let st = self.entries[i].state;
            if backlog {
                if st == ProducerState::Idle {
                    self.set_state_at(i, ProducerState::Ready);
                    let ghost s1 = self.entries@;
                    self.entries[i].prdy_pending = true;
                    proof {
                        assert(self.entries@ =~= s1.update(i as int, self.entries@[i as int]));
                        lemma_same_shape(s1, i as int, self.entries@[i as int], self.next_id);
                    }
                    add.push(self.entries[i].id);
                } else if st == ProducerState::Ready {
                    add.push(self.entries[i].id);
                }
            } else if st == ProducerState::Ready && contains_u64(current, self.entries[i].id) {
                self.set_state_at(i, ProducerState::Idle);
            }
            i = i + 1;
        }
        assert(s0.take(s0.len() as int) =~= s0);
        assert(self.entries@ =~= s0.map_values(|e: ProducerEntry| synced(e, current@)));
        (add, remove)
    }

    /// Frees every producer whose assignment in flight is for `consumer_id`
    /// (that consumer is gone); returns how many there were.
    pub fn clear_assignments_to_consumer(&mut self, consumer_id: u64) -> (n: usize)
        requires
            old(self).wf(),
        ensures
            final(self).wf(),
            n == count_assigned(old(self)@, consumer_id),
            final(self)@ == old(self)@.map_values(|e: ProducerEntry| unassigned(e, consumer_id)),
            final(self).next_id() == old(self).next_id(),
    {
        let ghost s0 = self.entries@;
        let mut cleared: usize = 0;
        let mut i: usize = 0;
        while i < self.entries.len()
            invariant
                self.wf(),
                self.next_id == old(self).next_id,
                self.entries@.len() == s0.len(),
                i <= s0.len(),
                forall|j: int| 0 <= j < i ==> self.entries@[j] == unassigned(s0[j], consumer_id),
                forall|j: int| i <= j < s0.len() ==> self.entries@[j] == s0[j],
                cleared == count_assigned(s0.take(i as int), consumer_id),
            decreases s0.len() - i,
        {
            assert(s0.take(i + 1).drop_last() =~= s0.take(i as int));
            proof {
                lemma_count_assigned_le(s0.take(i + 1), consumer_id);
            }
            let hit = match self.entries[i].pending_consumer_id {
                Some(c) => c == consumer_id,
                None => false,
            };
            if hit {
                self.release_at(i);
                cleared = cleared + 1;
            }
            i = i + 1;
        }
        assert(s0.take(s0.len() as int) =~= s0);
        assert(self.entries@ =~= s0.map_values(|e: ProducerEntry| unassigned(e, consumer_id)));
        cleared
    }

    /// Applies a heartbeat from producer `id` received at `now_ms`; `true`
    /// when the producer should be matched again.
    pub fn record_heartbeat_at(&mut self, id: u64, hb: ProducerHeartbeat, now_ms: u64) -> (r: bool)
        requires
            old(self).wf(),
        ensures
            final(self).wf(),
            r == heartbeat_rematch(old(self)@, id, hb, now_ms),
            final(self)@ == heartbeat_seq(old(self)@, id, hb, now_ms),
            final(self).next_id() == old(self).next_id(),
            lookup(old(self)@, id) matches Some(e) ==> ((e.state != ProducerState::Busy && hb.ring_messages == 0
                && hb.pending_messages == 0) ==> (lookup(final(self)@, id) matches Some(e2) && !e2.prdy_pending
                && e2.ring_messages == 0 && e2.pending_messages == 0 && e2.state == e.state && !r)),
    {
        proof {
            let f = |e: ProducerEntry| heartbeat_apply(e, hb, now_ms).0;
            lemma_lookup_update_id(old(self)@, id, f, id);
            if let Some(e) = lookup(old(self)@, id) {
                lemma_lookup_id(old(self)@, id);
                if e.state != ProducerState::Busy && hb.ring_messages == 0 && hb.pending_messages == 0 {
                    lemma_empty_heartbeat_clears_notice(e, hb, now_ms);
                }
            }
        }
        let ghost s0 = self.entries@;
        let ring = hb.ring_messages > 0;
        let any = ring || hb.pending_messages > 0;
        let mut rematch = false;
        match self.find(id) {
            None => {
                assert(self@ =~= heartbeat_seq(s0, id, hb, now_ms));
            },
            Some(i) => {
                let ghost e = s0[i as int];
                let old_drops = self.entries[i].hb_drops;
                self.entries[i].pending_messages = hb.pending_messages;
                self.entries[i].pending_bytes = hb.pending_bytes;
                self.entries[i].ring_messages = hb.ring_messages;
                self.entries[i].ring_bytes = hb.ring_bytes;
                if hb.drops_total >= old_drops {
                    self.entries[i].rate_drops = self.entries[i].rate_drops.wrapping_add(hb.drops_total - old_drops);
                }
                self.entries[i].hb_drops = hb.drops_total;
                proof {
                    assert(self.entries@ =~= s0.update(i as int, self.entries@[i as int]));
                    lemma_same_shape(s0, i as int, self.entries@[i as int], self.next_id);
                }
                let st = self.entries[i].state;
                if st == ProducerState::Busy {
                    let since = self.entries[i].busy_since_ms;
                    let timed_out = since > 0 && now_ms.saturating_sub(since) >= STALE_BUSY_MS;
                    if ring || timed_out {
                        self.release_at(i);
                        if ring {
                            self.set_state_at(i, ProducerState::Ready);
                            let ghost s2 = self.entries@;
                            self.entries[i].prdy_pending = true;
                            proof {
                                assert(self.entries@ =~= s2.update(i as int, self.entries@[i as int]));
                                lemma_same_shape(s2, i as int, self.entries@[i as int], self.next_id);
                            }
                            rematch = true;
                        }
                    }
                } else if st == ProducerState::Idle && ring {
                    self.set_state_at(i, ProducerState::Ready);
                    let ghost s2 = self.entries@;
                    self.entries[i].prdy_pending = true;
                    proof {
                        assert(self.entries@ =~= s2.update(i as int, self.entries@[i as int]));
                        lemma_same_shape(s2, i as int, self.entries@[i as int], self.next_id);
                    }
                    rematch = true;
                } else if !any {
                    let ghost s2 = self.entries@;
                    self.entries[i].prdy_pending = false;
                    proof {
                        assert(self.entries@ =~= s2.update(i as int, self.entries@[i as int]));
                        lemma_same_shape(s2, i as int, self.entries@[i as int], self.next_id);
                    }
                }
                assert(self.entries@[i as int] == heartbeat_apply(e, hb, now_ms).0);
                assert(self@ =~= heartbeat_seq(s0, id, hb, now_ms));
            },
        }
        rematch
    }

    /// Applies a heartbeat from producer `id` received now.
    pub fn record_heartbeat(&mut self, id: u64, hb: ProducerHeartbeat) -> (r: bool)
        requires
            old(self).wf(),
        ensures
            final(self).wf(),
            exists|now_ms: u64| #[trigger] heartbeat_seq(old(self)@, id, hb, now_ms) == final(self)@
                && r == heartbeat_rematch(old(self)@, id, hb, now_ms),
            final(self).next_id() == old(self).next_id(),
    {
        let now = unix_ms();
        self.record_heartbeat_at(id, hb, now)
    }

    /// Backlog and drops added up over all producers.
    /// Whether few enough producers are registered for every backlog total
    /// to fit in `u64`, as `backlog_totals` requires (it does when there are
    /// at most `u32::MAX` of them).
    pub fn totals_fit(&self) -> (r: bool)
        ensures
            r ==> sum_of(self@, |e: ProducerEntry| e.pending_messages as nat) <= u64::MAX,
            r ==> sum_of(self@, |e: ProducerEntry| e.pending_bytes as nat) <= u64::MAX,
            r ==> sum_of(self@, |e: ProducerEntry| e.ring_messages as nat) <= u64::MAX,
            r ==> sum_of(self@, |e: ProducerEntry| e.ring_bytes as nat) <= u64::MAX,
            r == (self@.len() <= u32::MAX),
    {
        let r = self.entries.len() <= 0xFFFF_FFFFusize;
        proof {
            if r {
                let n = self@.len();
                assert(n * u32::MAX <= u32::MAX * u32::MAX) by (nonlinear_arith)
                    requires n <= u32::MAX;
                lemma_sum_bound(self@, |e: ProducerEntry| e.pending_messages as nat);
                lemma_sum_bound(self@, |e: ProducerEntry| e.pending_bytes as nat);
                lemma_sum_bound(self@, |e: ProducerEntry| e.ring_messages as nat);
                lemma_sum_bound(self@, |e: ProducerEntry| e.ring_bytes as nat);
            }
        }
        r
    }

    pub fn backlog_totals(&self) -> (t: ProducerBacklogTotals)
        requires
            self.wf(),
            sum_of(self@, |e: ProducerEntry| e.pending_messages as nat) <= u64::MAX,
            sum_of(self@, |e: ProducerEntry| e.pending_bytes as nat) <= u64::MAX,
            sum_of(self@, |e: ProducerEntry| e.ring_messages as nat) <= u64::MAX,
            sum_of(self@, |e: ProducerEntry| e.ring_bytes as nat) <= u64::MAX,
        ensures
            t.pending_messages == sum_of(self@, |e: ProducerEntry| e.pending_messages as nat),
            t.pending_bytes == sum_of(self@, |e: ProducerEntry| e.pending_bytes as nat),
            t.ring_messages == sum_of(self@, |e: ProducerEntry| e.ring_messages as nat),
            t.ring_bytes == sum_of(self@, |e: ProducerEntry| e.ring_bytes as nat),
            t.drops_total == drops_sum(self@),
    {
        let ghost s = self.entries@;
        let ghost fpm = |e: ProducerEntry| e.pending_messages as nat;
        let ghost fpb = |e: ProducerEntry| e.pending_bytes as nat;
        let ghost frm = |e: ProducerEntry| e.ring_messages as nat;
        let ghost frb = |e: ProducerEntry| e.ring_bytes as nat;
        let mut t = ProducerBacklogTotals {
            pending_messages: 0,
            pending_bytes: 0,
            ring_messages: 0,
            ring_bytes: 0,
            drops_total: 0,
        };
        let mut i: usize = 0;
        while i < self.entries.len()
            invariant
                self.entries@ == s,
                i <= s.len(),
                fpm == (|e: ProducerEntry| e.pending_messages as nat),
                fpb == (|e: ProducerEntry| e.pending_bytes as nat),
                frm == (|e: ProducerEntry| e.ring_messages as nat),
                frb == (|e: ProducerEntry| e.ring_bytes as nat),
                sum_of(s, fpm) <= u64::MAX,
                sum_of(s, fpb) <= u64::MAX,
                sum_of(s, frm) <= u64::MAX,
                sum_of(s, frb) <= u64::MAX,
                t.pending_messages == sum_of(s.take(i as int), fpm),
                t.pending_bytes == sum_of(s.take(i as int), fpb),
                t.ring_messages == sum_of(s.take(i as int), frm),
                t.ring_bytes == sum_of(s.take(i as int), frb),
                t.drops_total == drops_sum(s.take(i as int)),
            decreases s.len() - i,
        {
            assert(s.take(i + 1).drop_last() =~= s.take(i as int));
            proof {
                lemma_sum_prefix(s, fpm, i + 1);
                lemma_sum_prefix(s, fpb, i + 1);
                lemma_sum_prefix(s, frm, i + 1);
                lemma_sum_prefix(s, frb, i + 1);
                assert(s.take(i + 1).last() == s[i as int]);
                assert(fpm(s[i as int]) == s[i as int].pending_messages as nat);
                assert(fpb(s[i as int]) == s[i as int].pending_bytes as nat);
                assert(frm(s[i as int]) == s[i as int].ring_messages as nat);
                assert(frb(s[i as int]) == s[i as int].ring_bytes as nat);
                assert(sum_of(s.take(i + 1), fpm) == sum_of(s.take(i as int), fpm) + s[i as int].pending_messages);
                assert(sum_of(s.take(i + 1), fpb) == sum_of(s.take(i as int), fpb) + s[i as int].pending_bytes);
                assert(sum_of(s.take(i + 1), frm) == sum_of(s.take(i as int), frm) + s[i as int].ring_messages);
                assert(sum_of(s.take(i + 1), frb) == sum_of(s.take(i as int), frb) + s[i as int].ring_bytes);
            }
            let e = &self.entries[i];
            t.pending_messages = t.pending_messages + e.pending_messages as u64;
            t.pending_bytes = t.pending_bytes + e.pending_bytes as u64;
            t.ring_messages = t.ring_messages + e.ring_messages as u64;
            t.ring_bytes = t.ring_bytes + e.ring_bytes as u64;
            t.drops_total = t.drops_total.saturating_add(e.hb_drops);
            i = i + 1;
        }
        assert(s.take(s.len() as int) =~= s);
        t
    }
}

/// The ranking weight of `e`.
fn entry_weight(e: &ProducerEntry) -> (r: (u64, u64))
    ensures
        r == weight_of(*e),
{
    let mut msgs: u64 = e.pending_messages as u64 + e.ring_messages as u64;
    let bytes: u64 = e.pending_bytes as u64 + e.ring_bytes as u64;
    if msgs == 0 && e.prdy_pending {
        msgs = 1;
    }
    (msgs, bytes)
}

} // verus!
