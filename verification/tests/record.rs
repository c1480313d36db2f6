//! Records, on their way out and on their way in.

use kaas_lib::produce::record::ProducerRecord;
use kaas_lib::read::record::{DecodeError, Record, RecordOutcome};
use kaas_lib::wire::TimestampType;

#[test]
fn a_tombstone_is_not_an_empty_value() {
    let tombstone = ProducerRecord::new("t").with_key(b"k".to_vec());
    let empty = ProducerRecord::new("t").with_key(b"k".to_vec()).with_value(Vec::new());
    assert_eq!(tombstone.value, None);
    assert_eq!(empty.value, Some(Vec::new()));
    assert_ne!(tombstone, empty);
}

#[test]
fn a_relayed_partition_reaches_the_same_record_as_a_chosen_one() {
    assert_eq!(
        ProducerRecord::new("t").with_maybe_partition(Some(3)),
        ProducerRecord::new("t").with_partition(3)
    );
    assert_eq!(ProducerRecord::new("t").with_maybe_partition(None).partition, None);
}

#[test]
fn a_relayed_none_clears_a_partition_set_earlier() {
    // Assignment, not a merge.
    let record = ProducerRecord::new("t").with_partition(3).with_maybe_partition(None);
    assert_eq!(record.partition, None);
}

#[test]
fn headers_keep_their_order_and_their_duplicates() {
    let record = ProducerRecord::new("t")
        .with_header("trace", b"a".to_vec())
        .with_header("trace", b"b".to_vec())
        .with_null_header("tombstoned");

    assert_eq!(record.headers.len(), 3);
    assert_eq!(record.headers[0], ("trace".to_owned(), Some(b"a".to_vec())));
    assert_eq!(record.headers[1], ("trace".to_owned(), Some(b"b".to_vec())));
    assert_eq!(record.headers[2], ("tombstoned".to_owned(), None));
}

fn record(value: Option<&'static [u8]>) -> Record {
    Record {
        topic: "orders".to_owned(),
        partition: 0,
        offset: 7,
        timestamp: 1,
        timestamp_type: TimestampType::Creation,
        key: Some(b"k".to_vec()),
        value: value.map(<[u8]>::to_vec),
        headers: Vec::new(),
        producer_id: None,
        transactional: false,
        leader_epoch: None,
    }
}

#[test]
fn record_a_tombstone_is_not_an_empty_value() {
    assert!(record(None).is_tombstone());
    assert!(!record(Some(b"")).is_tombstone());
    assert_eq!(record(Some(b"")).payload_len(), 1);
}

#[test]
fn duplicate_header_keys_survive() {
    let mut record = record(Some(b"v"));
    record.headers = vec![
        ("trace".to_owned(), Some(b"a".to_vec())),
        ("trace".to_owned(), Some(b"b".to_vec())),
    ];
    assert_eq!(record.headers.len(), 2);
}

#[test]
fn a_malformed_outcome_still_knows_where_it_was() {
    let outcome = RecordOutcome::Malformed {
        offset: 42,
        last_offset: Some(50),
        raw: b"garbage".to_vec(),
        reason: DecodeError::new("crc mismatch".to_owned()),
    };
    assert_eq!(outcome.offset(), 42);
    assert!(outcome.is_malformed());
    assert!(outcome.record().is_none());
    match &outcome {
        RecordOutcome::Malformed { reason, .. } => {
            assert_eq!(reason.reason, "crc mismatch");
        }
        other => panic!("{other:?}"),
    }
}

#[test]
fn a_decoded_outcome_hands_its_record_out() {
    let outcome = RecordOutcome::Decoded(record(Some(b"v")));
    assert_eq!(outcome.offset(), 7);
    assert!(!outcome.is_malformed());
    assert_eq!(outcome.record().unwrap().value, Some(b"v".to_vec()));
    assert_eq!(record(Some(b"value")).payload_len(), 6);
}
