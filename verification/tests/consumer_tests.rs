use cupidmq::consumer::{
    connect_retry_interval, parse_host_port, parse_master_addr, AddrError, ConfigError, ConsumerConfig,
    ConsumerStats,
};
use std::time::Duration;

#[test]
fn resolve_bind_defaults_to_all_interfaces() {
    let cfg = ConsumerConfig::new("127.0.0.1:9750", "192.168.1.10:9760").unwrap();
    let (host, port) = cfg.resolve_bind().unwrap();
    assert_eq!(host, "0.0.0.0");
    assert_eq!(port, 9760);
}

#[test]
fn resolve_bind_honors_explicit_bind_addr() {
    let cfg = ConsumerConfig::new("127.0.0.1:9750", "127.0.0.1:9760")
        .unwrap()
        .bind_addr("0.0.0.0:9761")
        .unwrap();
    let (host, port) = cfg.resolve_bind().unwrap();
    assert_eq!(host, "0.0.0.0");
    assert_eq!(port, 9761);
}

#[test]
fn host_port_errors() {
    assert_eq!(parse_host_port("nohost"), Err(AddrError::MissingColon));
    assert_eq!(parse_host_port(":9000"), Err(AddrError::EmptyHost));
    assert_eq!(parse_host_port("h:99999"), Err(AddrError::InvalidPort));
    assert_eq!(parse_host_port("h:"), Err(AddrError::InvalidPort));
    assert_eq!(parse_host_port("::1:80"), Ok(("::1".to_string(), 80)));
}

#[test]
fn master_addr_falls_back_to_default_port() {
    assert_eq!(parse_master_addr("example"), Ok(("example".to_string(), 9750)));
    assert_eq!(parse_master_addr("h:1"), Ok(("h".to_string(), 1)));
}

#[test]
fn config_errors() {
    assert!(matches!(ConsumerConfig::new("", "h:1"), Err(ConfigError::MasterRequired)));
    assert!(matches!(ConsumerConfig::new("m", ""), Err(ConfigError::DataAddrRequired)));
    assert!(matches!(ConsumerConfig::new("m", "h"), Err(ConfigError::DataAddr(AddrError::MissingColon))));
    let cfg = ConsumerConfig::new("m", "h:1").unwrap();
    assert!(matches!(cfg.bind_addr("x:y"), Err(ConfigError::BindAddr(AddrError::InvalidPort))));
}

#[test]
fn builders_keep_at_least_one() {
    let cfg = ConsumerConfig::new("m", "h:1")
        .unwrap()
        .prefetch_batch_count(0)
        .batch_timeout_secs(0)
        .data_idle_secs(0)
        .reconnect_delay_secs(0)
        .max_batch_size_count(0)
        .consumer_tag("c")
        .reconnect(false);
    assert_eq!(cfg.prefetch_batch_count, 1);
    assert_eq!(cfg.batch_timeout_secs, 1);
    assert_eq!(cfg.data_idle_secs, 1);
    assert_eq!(cfg.reconnect_delay_secs, 1);
    assert_eq!(cfg.max_batch_size_count, 0);
    assert_eq!(cfg.consumer_tag, "c");
    assert!(!cfg.reconnect);
}

#[test]
fn retry_interval_is_capped() {
    let cfg = ConsumerConfig::new("m", "h:1").unwrap();
    assert_eq!(connect_retry_interval(&cfg), Duration::from_millis(100));
    let mut cfg = cfg;
    cfg.reconnect_delay_secs = 0;
    assert_eq!(connect_retry_interval(&cfg), Duration::from_millis(0));
    cfg.reconnect_delay_secs = u64::MAX;
    assert_eq!(connect_retry_interval(&cfg), Duration::from_millis(100));
}

#[test]
fn fetch_outcomes_are_counted() {
    let mut s = ConsumerStats::default();
    assert!(!s.record_fetch(None));
    assert!(!s.record_fetch(Some(0)));
    assert!(s.record_fetch(Some(5)));
    assert_eq!(s.empty_waits, 2);
    assert_eq!(s.batches_in, 1);
    assert_eq!(s.msgs_in, 5);
}

#[test]
fn retries_and_link_counters() {
    let cfg = ConsumerConfig::new("127.0.0.1:9750", "127.0.0.1:9760").unwrap();
    assert!(cfg.retries_after_loss(false));
    assert!(!cfg.retries_after_loss(true));
    let off = cfg.reconnect(false);
    assert!(!off.retries_after_loss(false));
    let mut stats = ConsumerStats::default();
    stats.record_drop();
    stats.record_drop();
    stats.record_reconnect();
    assert_eq!(stats.drops, 2);
    assert_eq!(stats.reconnects, 1);
    assert_eq!(stats.batches_in, 0);
}
