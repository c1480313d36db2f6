//! What a producer is asked to guarantee.

use kaas_lib::compression::Compression;
use kaas_lib::produce::config::{Acks, ProducerConfig, RetryPolicy};

#[test]
fn acks_map_to_the_protocols_own_spelling() {
    assert_eq!(Acks::Leader.wire(), 1);
    assert_eq!(Acks::All.wire(), -1);
}

#[test]
fn the_default_is_the_durable_one() {
    assert_eq!(ProducerConfig::new().acks, Acks::All);
    assert_eq!(Acks::default(), Acks::All);
}

#[test]
fn no_acks_variant_can_produce_the_unresponded_request() {
    for acks in [Acks::Leader, Acks::All] {
        assert_ne!(acks.wire(), 0, "acks=0 gets no response");
    }
}

#[test]
fn an_absurd_delivery_timeout_saturates_rather_than_wrapping() {
    let config = ProducerConfig::new().delivery_timeout(u64::MAX as u128 * 1_000);
    assert_eq!(config.delivery_timeout_ms(), i32::MAX);
}

#[test]
fn a_plausible_delivery_timeout_is_itself() {
    assert_eq!(ProducerConfig::new().delivery_timeout_ms(), 30_000);
    let config = ProducerConfig::default().delivery_timeout(i32::MAX as u128);
    assert_eq!(config.delivery_timeout_ms(), i32::MAX);
}

#[test]
fn each_setting_is_its_own() {
    let config = ProducerConfig::new()
        .acks(Acks::Leader)
        .compression(Compression::Zstd)
        .retry(RetryPolicy { max_attempts: 2 })
        .linger(60_000)
        .buffer_memory(64 * 1024)
        .max_request_size(500)
        .transactional_id("tx".to_owned());
    assert_eq!(config.acks, Acks::Leader);
    assert_eq!(config.compression, Compression::Zstd);
    assert_eq!(config.retry.max_attempts, 2);
    assert_eq!(config.linger, 60_000);
    assert_eq!(config.buffer_memory, 65_536);
    assert_eq!(config.max_request_size, 500);
    assert_eq!(config.transactional_id.as_deref(), Some("tx"));
    assert_eq!(config.max_in_flight(), 5);
    assert_eq!(config.idempotent(false).max_in_flight(), 1);
}

#[test]
fn a_policy_counts_the_first_attempt() {
    let policy = RetryPolicy::default();
    assert!(policy.should_retry(1));
    assert!(policy.should_retry(4));
    assert!(!policy.should_retry(5));
}

#[test]
fn codecs_go_by_number() {
    for (codec, code) in [
        (Compression::Uncompressed, 0),
        (Compression::Gzip, 1),
        (Compression::Snappy, 2),
        (Compression::Lz4, 3),
        (Compression::Zstd, 4),
    ] {
        assert_eq!(codec.wire(), code);
        assert_eq!(Compression::from_wire(code), codec);
    }
}
