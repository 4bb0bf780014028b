//! CupidMQ — a brokerless batch queue: wire framing, byte-capped rings,
//! producer batching and the matchmaking rules, with their contracts.

pub mod accumulator;
pub mod buf;
pub mod clock;
pub mod config;
pub mod consumer;
pub mod consumers;
pub mod dashboard;
pub mod matcher;
pub mod metrics;
pub mod producer;
pub mod producers;
pub mod protocol;
pub mod relay;
pub mod ring;
pub mod text;
pub mod wire;
