use cupidmq::dashboard::content_type;
use cupidmq::metrics::{producer_state_str, Metrics, TickBuffer, TransferTick};
use cupidmq::producers::ProducerState;

fn tick(i: u64) -> TransferTick {
    TransferTick {
        ts_ms: i,
        producer_id: 1,
        consumer_id: 2,
        msg_count: 1,
        batch_bytes: 10,
        phase: "deliver".into(),
        ok: true,
        fail_message: None,
        producer_state: "busy".into(),
        consumer_state: "processing".into(),
    }
}

#[test]
fn respects_cap() {
    let mut buf = TickBuffer::new(3);
    for i in 0..5u64 {
        buf.push(tick(i));
    }
    assert_eq!(buf.len(), 3);
    let drained = buf.drain();
    assert_eq!(drained.len(), 3);
    assert_eq!(drained[0].ts_ms, 2);
}

#[test]
fn tick_buffer_cap_is_at_least_one() {
    let mut buf = TickBuffer::new(0);
    buf.push(tick(1));
    buf.push(tick(2));
    assert_eq!(buf.len(), 1);
    assert_eq!(buf.drain()[0].ts_ms, 2);
    assert_eq!(buf.len(), 0);
}

#[test]
fn transfer_ticks_skip_empty_deliveries_and_missing_consumers() {
    let mut m = Metrics::new();
    m.record_transfer_tick_at(1, 0, 5, 50, true, None, "busy", "processing", 1);
    m.record_transfer_tick_at(1, 2, 0, 0, true, None, "busy", "processing", 2);
    assert_eq!(m.ticks_buffered(), 0);
    m.record_transfer_tick_at(1, 2, 5, 50, true, None, "busy", "processing", 3);
    m.record_transfer_tick_at(1, 2, 4, 40, false, Some("x".into()), "busy", "delivery_failed", 4);
    assert_eq!((m.transfers_total, m.transfer_bytes_total, m.batches_total), (5, 50, 1));
    assert_eq!((m.delivery_failures_total, m.requeue_total), (1, 4));
    let t = m.drain_ticks();
    assert_eq!(t[1].phase, "fail");
    assert_eq!(t[1].fail_message.as_deref(), Some("x"));
}

#[test]
fn state_names() {
    assert_eq!(producer_state_str(ProducerState::Idle), "idle");
    assert_eq!(producer_state_str(ProducerState::Ready), "ready");
    assert_eq!(producer_state_str(ProducerState::Busy), "busy");
}

#[test]
fn content_types_by_extension() {
    assert_eq!(content_type("index.html"), "text/html; charset=utf-8");
    assert_eq!(content_type("assets/app.min.js"), "application/javascript");
    assert_eq!(content_type("a.woff2"), "font/woff2");
    assert_eq!(content_type("a.woff"), "font/woff");
    assert_eq!(content_type("json"), "application/json");
    assert_eq!(content_type("noext"), "application/octet-stream");
    assert_eq!(content_type("a.HTML"), "application/octet-stream");
}
