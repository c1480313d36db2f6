//! Choosing partitions.

use kaas_lib::error::{ErrorCode, ErrorKind};
use kaas_lib::produce::partition::{murmur2, partition_for_key, Partitioner};
use kaas_lib::produce::producer::{partition_count, resolve_partition};
use kaas_lib::produce::record::ProducerRecord;

#[test]
fn murmur2_is_deterministic_and_key_sensitive() {
    assert_eq!(murmur2(b"customer-7"), murmur2(b"customer-7"));
    assert_ne!(murmur2(b"customer-7"), murmur2(b"customer-8"));
}

#[test]
fn murmur2_handles_every_tail_length() {
    // A wrong tail only shows up for keys whose length is not a multiple of
    // four. Exercise all four residues and assert they stay distinct.
    let hashes: Vec<i32> = ["", "a", "ab", "abc", "abcd", "abcde"]
        .iter()
        .map(|key| murmur2(key.as_bytes()))
        .collect();

    let mut unique = hashes.clone();
    unique.sort_unstable();
    unique.dedup();
    assert_eq!(unique.len(), hashes.len(), "tail handling collapsed keys");
}

#[test]
fn an_empty_key_still_hashes() {
    // Distinct from *no* key, which sticks instead of hashing.
    let partition = partition_for_key(b"", 6);
    assert!((0..6).contains(&partition));
}

#[test]
fn a_key_always_lands_in_range_even_for_a_negative_hash() {
    // An absolute value would overflow on i32::MIN and a plain modulo of a
    // negative would return a negative partition. Sweep enough keys to hit
    // negative hashes.
    for i in 0..2_000 {
        let key = format!("key-{i}");
        let partition = partition_for_key(key.as_bytes(), 6);
        assert!((0..6).contains(&partition), "key {key} produced partition {partition}");
    }
}

#[test]
fn keys_spread_across_partitions() {
    let mut seen = [0_u32; 6];
    for i in 0..6_000 {
        let key = format!("key-{i}");
        let partition = partition_for_key(key.as_bytes(), 6);
        if let Some(slot) = seen.get_mut(usize::try_from(partition).unwrap_or(0)) {
            *slot += 1;
        }
    }
    assert!(seen.iter().all(|count| *count > 500), "murmur2 spread badly: {seen:?}");
}

#[test]
fn one_partition_takes_everything() {
    for i in 0..100 {
        assert_eq!(partition_for_key(format!("k{i}").as_bytes(), 1), 0);
    }
}

#[test]
fn an_unkeyed_record_sticks_until_rotated() {
    let mut partitioner = Partitioner::new();
    let first = partitioner.assign("orders", None, 12).unwrap();

    for _ in 0..100 {
        assert_eq!(
            partitioner.assign("orders", None, 12),
            Some(first),
            "sticky partitioner round-robined, which destroys batching"
        );
    }

    partitioner.rotate("orders");
    // The redraw may legitimately land on the same partition; what must hold is
    // that it is still a real one.
    let after = partitioner.assign("orders", None, 12).unwrap();
    assert!((0..12).contains(&after));
}

#[test]
fn stickiness_is_per_topic() {
    let mut partitioner = Partitioner::new();
    let orders = partitioner.assign("orders", None, 12);
    let shipments = partitioner.assign("shipments", None, 12);
    assert_eq!(partitioner.assign("orders", None, 12), orders);
    assert_eq!(partitioner.assign("shipments", None, 12), shipments);
}

#[test]
fn a_keyed_record_ignores_the_sticky_choice() {
    let mut partitioner = Partitioner::new();
    let stuck = partitioner.assign("orders", None, 12).unwrap();
    // Find a key that hashes somewhere else, and assert the partitioner sends
    // it there rather than to the stuck partition.
    let elsewhere = (0..1_000)
        .map(|i| format!("key-{i}"))
        .find(|key| partition_for_key(key.as_bytes(), 12) != stuck)
        .expect("1000 keys should not all hash to one of 12 partitions");

    assert_eq!(
        partitioner.assign("orders", Some(elsewhere.as_bytes()), 12),
        Some(partition_for_key(elsewhere.as_bytes(), 12))
    );
}

#[test]
fn a_topic_with_no_partitions_gets_no_answer() {
    let mut partitioner = Partitioner::new();
    assert_eq!(partitioner.assign("orders", None, 0), None);
    assert_eq!(partitioner.assign("orders", Some(b"k"), 0), None);
}

#[test]
fn a_stale_sticky_choice_is_clamped_into_range() {
    let mut partitioner = Partitioner::new();
    // Stick to a partition on a wide topic, then ask about a narrow one.
    let _ = partitioner.assign("orders", None, 64);
    let narrowed = partitioner.assign("orders", None, 2).unwrap();
    assert!((0..2).contains(&narrowed));
}

/// The values every other client computes.
#[test]
fn murmur2_agrees_with_other_clients() {
    for (key, hash) in [
        ("21", -973_932_308),
        ("foobar", -790_332_482),
        ("a-little-bit-long-string", -985_981_536),
        ("a-little-bit-longer-string", -1_486_304_829),
        ("lkjh234lh9fiuh90y23oiuhsafujhadof229phr9h19h89h8", -58_897_971),
        ("abc", 479_470_107),
    ] {
        assert_eq!(murmur2(key.as_bytes()), hash, "{key}");
    }
    assert_eq!(partition_for_key(b"21", 7), (-973_932_308 & i32::MAX) % 7);
}

#[test]
fn a_choice_past_the_end_sticks_to_the_last_partition() {
    let mut partitioner = Partitioner::default();
    assert_eq!(partitioner.stick("orders", 9, 4), 3);
    assert_eq!(partitioner.assign("orders", None, 12), Some(3));
    assert_eq!(partitioner.stick("orders", 9, 1), 0);
}

#[test]
fn every_draw_is_a_partition() {
    let mut partitioner = Partitioner::new();
    let mut seen = [false; 4];
    for _ in 0..400 {
        partitioner.rotate("orders");
        let drawn = partitioner.assign("orders", None, 4).unwrap();
        seen[usize::try_from(drawn).unwrap()] = true;
    }
    assert_eq!(seen, [true; 4], "400 draws of four should not miss one");
}

#[test]
fn a_named_partition_must_exist() {
    let mut partitioner = Partitioner::new();
    let record = ProducerRecord::new("orders").with_partition(2);
    assert_eq!(resolve_partition(&mut partitioner, &record, 3).unwrap(), 2);
    let error = resolve_partition(&mut partitioner, &record, 2).unwrap_err();
    assert!(matches!(
        error.kind,
        ErrorKind::InvalidRequest(text)
            if text == "orders: partition 2 does not exist; the topic has 2"
    ));
    let keyed = ProducerRecord::new("orders").with_key(b"21".to_vec());
    assert_eq!(
        resolve_partition(&mut partitioner, &keyed, 12).unwrap(),
        partition_for_key(b"21", 12)
    );
    let nowhere = resolve_partition(&mut partitioner, &keyed, 0).unwrap_err();
    assert!(matches!(
        nowhere.kind,
        ErrorKind::InvalidRequest(text) if text == "orders: topic has no partitions"
    ));
}

#[test]
fn an_unlisted_topic_has_no_count() {
    assert_eq!(partition_count("orders", Some(6)).unwrap(), 6);
    let unknown = partition_count("orders", None).unwrap_err();
    assert_eq!(unknown.code(), Some(ErrorCode::UnknownTopicOrPartition));
    let implausible = partition_count("orders", Some(usize::MAX)).unwrap_err();
    assert!(matches!(
        implausible.kind,
        ErrorKind::InvalidRequest(text) if text == "orders: implausible partition count"
    ));
}
