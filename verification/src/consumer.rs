//! The consumer's local side: its configuration, the addresses it reads, and
//! the counters it keeps.

use crate::text::{chars_of, parse_unsigned, parse_unsigned_range, string_from_chars};
use std::time::Duration;
use vstd::prelude::*;

verus! {

pub const DEFAULT_MAX_BATCH_SIZE_COUNT: u16 = 32;

pub const DEFAULT_PREFETCH_BATCH_COUNT: usize = 4;

pub const DEFAULT_BATCH_TIMEOUT_SECS: u64 = 10;

pub const DEFAULT_DATA_IDLE_SECS: u64 = 60;

pub const DEFAULT_RECONNECT_DELAY_SECS: u64 = 2;

/// The longest wait between attempts to reach the master, in milliseconds.
pub const CONNECT_RETRY_MS: u64 = 100;

/// The port assumed for a master address that names none.
pub const DEFAULT_MASTER_PORT: u16 = 9750;

/// Why an address is not `host:port`.
#[derive(Debug, Clone, Copy, PartialEq, Eq, Structural)]
pub enum AddrError {
    /// There is no `:`.
    MissingColon,
    /// Nothing stands before the last `:`.
    EmptyHost,
    /// What follows the last `:` is not a `u16`.
    InvalidPort,
}

/// Why a consumer configuration is refused.
#[derive(Debug, Clone, Copy, PartialEq, Eq, Structural)]
pub enum ConfigError {
    MasterRequired,
    DataAddrRequired,
    DataAddr(AddrError),
    BindAddr(AddrError),
}

/// Index of the last `c` in `s`, if any.
pub open spec fn last_index(s: Seq<char>, c: char) -> Option<nat>
    decreases s.len(),
{
    if s.len() == 0 {
        None
    } else if s.last() == c {
        Some((s.len() - 1) as nat)
    } else {
        last_index(s.drop_last(), c)
    }
}

/// `addr` split at its last `:` into a host and a `u16` port.
pub open spec fn host_port(addr: Seq<char>) -> Result<(Seq<char>, u16), AddrError> {
    match last_index(addr, ':') {
        None => Err(AddrError::MissingColon),
        Some(i) => if i == 0 {
            Err(AddrError::EmptyHost)
        } else {
            match parse_unsigned(addr.skip(i as int + 1), u16::MAX as nat) {
                Some(p) => Ok((addr.take(i as int), p as u16)),
                None => Err(AddrError::InvalidPort),
            }
        },
    }
}

proof fn lemma_last_index_unique(s: Seq<char>, c: char, i: int)
    requires
        0 <= i < s.len(),
        s[i] == c,
        forall|j: int| i < j < s.len() ==> s[j] != c,
    ensures
        last_index(s, c) == Some(i as nat),
    decreases s.len(),
{
    if s.last() != c {
        lemma_last_index_unique(s.drop_last(), c, i);
    }
}

proof fn lemma_no_index(s: Seq<char>, c: char)
    requires
        forall|j: int| 0 <= j < s.len() ==> s[j] != c,
    ensures
        last_index(s, c) is None,
    decreases s.len(),
{
    if s.len() > 0 {
        lemma_no_index(s.drop_last(), c);
    }
}

/// `host:port`, split at the last `:`; the host may not be empty.
pub fn parse_host_port(addr: &str) -> (r: Result<(String, u16), AddrError>)
    ensures
        match (r, host_port(addr@)) {
            (Ok((h, p)), Ok((sh, sp))) => h@ == sh && p == sp,
            (Err(e), Err(se)) => e == se,
            _ => false,
        },
{
    let cs = chars_of(addr);
    let n = cs.len();
    let mut i = n;
    while i > 0 && cs[i - 1] != ':'
        invariant
            i <= n == cs@.len(),
            cs@ == addr@,
            forall|j: int| i <= j < n ==> cs@[j] != ':',
        decreases i,
    {
        i = i - 1;
    }
    if i == 0 {
        proof {
            lemma_no_index(addr@, ':');
        }
        return Err(AddrError::MissingColon);
    }
    let k = i - 1;
    proof {
        lemma_last_index_unique(addr@, ':', k as int);
    }
    if k == 0 {
        return Err(AddrError::EmptyHost);
    }
    assert(addr@.skip(k + 1) =~= cs@.subrange(k + 1, n as int));
    match parse_unsigned_range(&cs, k + 1, n, u16::MAX as u64) {
        None => Err(AddrError::InvalidPort),
        Some(p) => {
            assert(addr@.take(k as int) =~= cs@.subrange(0, k as int));
            Ok((string_from_chars(&cs, 0, k), p as u16))
        },
    }
}

/// A master address: `host:port`, or the whole text as host with port 9750
/// when it does not read as `host:port`.
pub open spec fn master_addr(addr: Seq<char>) -> (Seq<char>, u16) {
    match host_port(addr) {
        Ok(hp) => hp,
        Err(_) => (addr, DEFAULT_MASTER_PORT),
    }
}

/// The master's host and port; never fails (see `master_addr`).
pub fn parse_master_addr(addr: &str) -> (r: Result<(String, u16), AddrError>)
    ensures
        r is Ok,
        r.unwrap().0@ == master_addr(addr@).0,
        r.unwrap().1 == master_addr(addr@).1,
{
    match parse_host_port(addr) {
        Ok(hp) => Ok(hp),
        Err(_) => Ok((addr.to_owned(), DEFAULT_MASTER_PORT)),
    }
}

/// How a consumer reaches the master and receives batches.
#[derive(Debug, Clone)]
pub struct ConsumerConfig {
    pub master: String,
    /// The address announced to the master; producers connect there.
    pub data_addr: String,
    /// Where to listen for batches; by default `0.0.0.0` on the port of `data_addr`.
    pub bind_addr: Option<String>,
    pub consumer_tag: String,
    pub max_batch_size_count: u16,
    pub prefetch_batch_count: usize,
    pub batch_timeout_secs: u64,
    pub data_idle_secs: u64,
    pub reconnect: bool,
    pub reconnect_delay_secs: u64,
}

/// `v`, or 1 when `v` is 0.
pub open spec fn at_least_one(v: int) -> int {
    if v < 1 { 1 } else { v }
}

impl ConsumerConfig {
    /// A configuration with the defaults; `data_addr` must be `host:port`.
    pub fn new(master: &str, data_addr: &str) -> (r: Result<Self, ConfigError>)
        ensures
            master@.len() == 0 ==> r == Err::<Self, ConfigError>(ConfigError::MasterRequired),
            master@.len() > 0 && data_addr@.len() == 0 ==> r == Err::<Self, ConfigError>(ConfigError::DataAddrRequired),
            master@.len() > 0 && data_addr@.len() > 0 ==> match host_port(data_addr@) {
                Err(e) => r == Err::<Self, ConfigError>(ConfigError::DataAddr(e)),
                Ok(_) => r matches Ok(c) && c.master@ == master@ && c.data_addr@ == data_addr@
                    && c.bind_addr is None && c.consumer_tag@.len() == 0
                    && c.max_batch_size_count == DEFAULT_MAX_BATCH_SIZE_COUNT
                    && c.prefetch_batch_count == DEFAULT_PREFETCH_BATCH_COUNT
                    && c.batch_timeout_secs == DEFAULT_BATCH_TIMEOUT_SECS
                    && c.data_idle_secs == DEFAULT_DATA_IDLE_SECS && c.reconnect
                    && c.reconnect_delay_secs == DEFAULT_RECONNECT_DELAY_SECS,
            },
    {
        if master.unicode_len() == 0 {
            return Err(ConfigError::MasterRequired);
        }
        if data_addr.unicode_len() == 0 {
            return Err(ConfigError::DataAddrRequired);
        }
        match parse_host_port(data_addr) {
            Err(e) => Err(ConfigError::DataAddr(e)),
            Ok(_) => Ok(ConsumerConfig {
                master: master.to_owned(),
                data_addr: data_addr.to_owned(),
                bind_addr: None,
                consumer_tag: String::new(),
                max_batch_size_count: DEFAULT_MAX_BATCH_SIZE_COUNT,
                prefetch_batch_count: DEFAULT_PREFETCH_BATCH_COUNT,
                batch_timeout_secs: DEFAULT_BATCH_TIMEOUT_SECS,
                data_idle_secs: DEFAULT_DATA_IDLE_SECS,
                reconnect: true,
                reconnect_delay_secs: DEFAULT_RECONNECT_DELAY_SECS,
            }),
        }
    }

    /// Listens for batches on `addr`, which must be `host:port`.
    pub fn bind_addr(self, addr: &str) -> (r: Result<Self, ConfigError>)
        ensures
            match host_port(addr@) {
                Err(e) => r == Err::<Self, ConfigError>(ConfigError::BindAddr(e)),
                Ok(_) => r matches Ok(c) && c.bind_addr matches Some(b) && b@ == addr@
                    && c == (ConsumerConfig { bind_addr: c.bind_addr, ..self }),
            },
    {
        match parse_host_port(addr) {
            Err(e) => Err(ConfigError::BindAddr(e)),
            Ok(_) => Ok(ConsumerConfig { bind_addr: Some(addr.to_owned()), ..self }),
        }
    }

    pub fn consumer_tag(self, tag: &str) -> (c: Self)
        ensures
            c.consumer_tag@ == tag@,
            c == (ConsumerConfig { consumer_tag: c.consumer_tag, ..self }),
    {
        ConsumerConfig { consumer_tag: tag.to_owned(), ..self }
    }

    pub fn max_batch_size_count(self, max_items: u16) -> (c: Self)
        ensures
            c == (ConsumerConfig { max_batch_size_count: max_items, ..self }),
    {
        ConsumerConfig { max_batch_size_count: max_items, ..self }
    }

    pub fn prefetch_batch_count(self, count: usize) -> (c: Self)
        ensures
            c == (ConsumerConfig { prefetch_batch_count: at_least_one(count as int) as usize, ..self }),
    {
        ConsumerConfig { prefetch_batch_count: if count < 1 { 1 } else { count }, ..self }
    }

    pub fn batch_timeout_secs(self, secs: u64) -> (c: Self)
        ensures
            c == (ConsumerConfig { batch_timeout_secs: at_least_one(secs as int) as u64, ..self }),
    {
        ConsumerConfig { batch_timeout_secs: if secs < 1 { 1 } else { secs }, ..self }
    }

    pub fn data_idle_secs(self, secs: u64) -> (c: Self)
        ensures
            c == (ConsumerConfig { data_idle_secs: at_least_one(secs as int) as u64, ..self }),
    {
        ConsumerConfig { data_idle_secs: if secs < 1 { 1 } else { secs }, ..self }
    }

    pub fn reconnect(self, on: bool) -> (c: Self)
        ensures
            c == (ConsumerConfig { reconnect: on, ..self }),
    {
        ConsumerConfig { reconnect: on, ..self }
    }

    /// Whether to try the master again after the link was lost or failed:
    /// only when reconnecting is on and the consumer was not stopped.
    pub fn retries_after_loss(&self, stopped: bool) -> (r: bool)
        ensures
            r == (self.reconnect && !stopped),
    {
        self.reconnect && !stopped
    }

    pub fn reconnect_delay_secs(self, secs: u64) -> (c: Self)
        ensures
            c == (ConsumerConfig { reconnect_delay_secs: at_least_one(secs as int) as u64, ..self }),
    {
        ConsumerConfig { reconnect_delay_secs: if secs < 1 { 1 } else { secs }, ..self }
    }

    /// Where to listen for batches: `bind_addr` when set, else `0.0.0.0` on
    /// the port of `data_addr`.
    pub fn resolve_bind(&self) -> (r: Result<(String, u16), AddrError>)
        ensures
            match self.bind_addr {
                Some(b) => match (r, host_port(b@)) {
                    (Ok((h, p)), Ok((sh, sp))) => h@ == sh && p == sp,
                    (Err(e), Err(se)) => e == se,
                    _ => false,
                },
                None => match (r, host_port(self.data_addr@)) {
                    (Ok((h, p)), Ok((_, sp))) => h@ == "0.0.0.0"@ && p == sp,
                    (Err(e), Err(se)) => e == se,
                    _ => false,
                },
            },
    {
        match &self.bind_addr {
            Some(b) => parse_host_port(b.as_str()),
            None => match parse_host_port(self.data_addr.as_str()) {
                Ok((_, port)) => Ok(("0.0.0.0".to_owned(), port)),
                Err(e) => Err(e),
            },
        }
    }
}

/// The length of a `Duration` in whole milliseconds, as
/// `Duration::as_millis` gives it.
pub uninterp spec fn duration_millis(d: Duration) -> nat;

/// Calls `Duration::from_millis`. Claimed: the duration is `ms`
/// milliseconds long, as its documentation says.
#[verifier::external_body]
fn duration_from_millis(ms: u64) -> (d: Duration)
    ensures
        duration_millis(d) == ms,
{
    Duration::from_millis(ms)
}

/// The wait between attempts to reach the master: the reconnect delay, but
/// never more than `CONNECT_RETRY_MS` milliseconds.
pub fn connect_retry_interval(config: &ConsumerConfig) -> (r: Duration)
    ensures
        duration_millis(r) == if config.reconnect_delay_secs * 1000 < CONNECT_RETRY_MS {
            config.reconnect_delay_secs * 1000
        } else {
            CONNECT_RETRY_MS as int
        },
{
    let delay = if config.reconnect_delay_secs > u64::MAX / 1000 {
        u64::MAX
    } else {
        config.reconnect_delay_secs * 1000
    };
    let ms = if delay < CONNECT_RETRY_MS {
        delay
    } else {
        CONNECT_RETRY_MS
    };
    duration_from_millis(ms)
}

/// Counters a consumer keeps of what it received.
#[derive(Debug, Clone, Copy, Default)]
pub struct ConsumerStats {
    pub batches_in: u64,
    pub msgs_in: u64,
    pub reconnects: u64,
    pub drops: u64,
    pub empty_waits: u64,
    pub stale_batches: u64,
}

impl ConsumerStats {
    /// Counts a lost or failed link to the master.
    pub fn record_drop(&mut self)
        ensures
            *final(self) == (ConsumerStats { drops: old(self).drops.wrapping_add(1), ..*old(self) }),
    {
        self.drops = self.drops.wrapping_add(1);
    }

    /// Counts a new attempt to reach the master after a loss.
    pub fn record_reconnect(&mut self)
        ensures
            *final(self) == (ConsumerStats { reconnects: old(self).reconnects.wrapping_add(1), ..*old(self) }),
    {
        self.reconnects = self.reconnects.wrapping_add(1);
    }

    /// The outcome of one fetch: `None` when no batch came in time, else the
    /// number of items received. An empty outcome counts an empty wait; a
    /// batch counts itself and its items. Returns whether there is a batch to
    /// hand to the application.
    pub fn record_fetch(&mut self, batch_len: Option<usize>) -> (forward: bool)
        ensures
            forward == (batch_len matches Some(n) && n > 0),
            forward ==> *final(self) == (ConsumerStats {
                batches_in: old(self).batches_in.wrapping_add(1),
                msgs_in: old(self).msgs_in.wrapping_add(batch_len.unwrap() as u64),
                ..*old(self)
            }),
            !forward ==> *final(self) == (ConsumerStats { empty_waits: old(self).empty_waits.wrapping_add(1), ..*old(self) }),
    {
        match batch_len {
            Some(n) if n > 0 => {
                self.batches_in = self.batches_in.wrapping_add(1);
                self.msgs_in = self.msgs_in.wrapping_add(n as u64);
                true
            },
            _ => {
                self.empty_waits = self.empty_waits.wrapping_add(1);
                false
            },
        }
    }
}

} // verus!
