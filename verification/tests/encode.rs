//! Record batches as bytes.

use kaas_lib::compression::Compression;
use kaas_lib::error::ErrorKind;
use kaas_lib::produce::encode::encode_batch;
use kaas_lib::produce::idempotence::BatchIdentity;
use kaas_lib::produce::record::ProducerRecord;
use kaas_lib::read::batch::peek_header;

fn one(record: ProducerRecord) -> Vec<u8> {
    encode_batch(&vec![record], Compression::Uncompressed, 1_700_000_000_000, None).unwrap()
}

#[test]
fn a_batch_carries_the_v2_magic_byte() {
    let encoded = one(ProducerRecord::new("t").with_value(b"hello".to_vec()));
    // base offset (8) + batch length (4) + leader epoch (4) = 16, then the
    // magic byte. Anything else means we wrote a message set, not a batch.
    assert_eq!(encoded.get(16), Some(&2_u8));
}

#[test]
fn every_codec_encodes() {
    for compression in [
        Compression::Uncompressed,
        Compression::Gzip,
        Compression::Snappy,
        Compression::Lz4,
        Compression::Zstd,
    ] {
        let record = ProducerRecord::new("t").with_key(b"k".to_vec()).with_value(b"v".to_vec());
        let encoded = encode_batch(&vec![record], compression, 1_700_000_000_000, None)
            .expect("encode failed");
        assert!(encoded.len() > 16, "{compression:?} produced a batch too short to be one");
    }
}

#[test]
fn a_tombstone_encodes_shorter_than_an_empty_value() {
    // A null value is a length of -1; an empty one is a length of 0 followed
    // by nothing. They must not encode identically.
    let tombstone = one(ProducerRecord::new("t").with_key(b"k".to_vec()));
    let empty = one(ProducerRecord::new("t").with_key(b"k".to_vec()).with_value(Vec::new()));
    assert_ne!(tombstone, empty);
}

#[test]
fn many_records_encode_as_one_batch_not_one_batch_each() {
    let records: Vec<ProducerRecord> = (0..3)
        .map(|i| ProducerRecord::new("t").with_value(format!("v{i}").into_bytes()))
        .collect();
    let encoded =
        encode_batch(&records, Compression::Uncompressed, 1_700_000_000_000, None).unwrap();

    // `lastOffsetDelta` is a big-endian i32 at byte 23; for three records in
    // one batch it is 2.
    assert_eq!(
        encoded.get(23..27),
        Some([0, 0, 0, 2].as_slice()),
        "records were split into one batch each"
    );

    // `baseSequence` is a big-endian i32 at byte 53, and -1 is the "no producer
    // id" spelling.
    assert_eq!(
        encoded.get(53..57),
        Some([0xff, 0xff, 0xff, 0xff].as_slice()),
        "baseSequence should be -1 without a producer id"
    );

    // Record count, at byte 57.
    assert_eq!(encoded.get(57..61), Some([0, 0, 0, 3].as_slice()));
}

#[test]
fn batching_holds_as_the_batch_grows() {
    // The split is driven by a per-record comparison, so a bug that survives
    // three records can still appear at a thousand.
    let records: Vec<ProducerRecord> = (0..1_000)
        .map(|i| ProducerRecord::new("t").with_value(format!("v{i}").into_bytes()))
        .collect();
    let encoded =
        encode_batch(&records, Compression::Uncompressed, 1_700_000_000_000, None).unwrap();

    assert_eq!(encoded.get(23..27), Some([0, 0, 0x03, 0xe7].as_slice()));
    assert_eq!(encoded.get(57..61), Some([0, 0, 0x03, 0xe8].as_slice()));
}

#[test]
fn an_identity_is_stamped_onto_the_batch() {
    let records: Vec<ProducerRecord> =
        (0..3).map(|i| ProducerRecord::new("t").with_value(vec![i])).collect();
    let identity = BatchIdentity {
        producer_id: 4_242,
        producer_epoch: 3,
        base_sequence: 17,
        transactional: true,
    };
    let encoded =
        encode_batch(&records, Compression::Gzip, 1_700_000_000_000, Some(identity)).unwrap();
    let header = peek_header(&encoded).unwrap();
    assert_eq!(header.producer_id, 4_242);
    assert!(header.transactional);
    assert_eq!(header.record_count, 3);
    assert_eq!(encoded.get(51..53), Some([0, 3].as_slice()));
    assert_eq!(encoded.get(53..57), Some([0, 0, 0, 17].as_slice()));
}

#[test]
fn timestamps_too_far_apart_are_refused() {
    let records = vec![
        ProducerRecord::new("t").with_timestamp(i64::MIN),
        ProducerRecord::new("t").with_timestamp(1),
    ];
    let error = encode_batch(&records, Compression::Uncompressed, 0, None).unwrap_err();
    match error.kind {
        ErrorKind::InvalidRequest(text) => assert_eq!(
            text,
            "could not encode a record batch: Timestamps within batch are too far apart \
             (-9223372036854775808, 1)"
        ),
        other => panic!("{other:?}"),
    }
}
