//! What the encoder writes, the decoder must read back unchanged.

use kaas_lib::compression::Compression;
use kaas_lib::produce::encode::encode_for_fuzzing;
use kaas_lib::produce::record::ProducerRecord;
use kaas_lib::read::batch::{decode_records, DecodeOptions, Visibility};
use kaas_lib::read::record::{Record, RecordOutcome};

fn round_trip(records: &Vec<ProducerRecord>, compression: Compression) -> Vec<Record> {
    let encoded = encode_for_fuzzing(records, compression).expect("encode");
    let decoded = decode_records(
        "t",
        0,
        encoded,
        &DecodeOptions {
            max_decompressed_bytes: 64 * 1024 * 1024,
            visibility: Visibility::All,
        },
    );

    decoded
        .outcomes
        .into_iter()
        .map(|outcome| match outcome {
            RecordOutcome::Decoded(record) => record,
            RecordOutcome::Malformed { offset, reason, .. } => {
                panic!("we encoded offset {offset} and could not decode it: {}", reason.reason)
            }
        })
        .collect()
}

const CODECS: [Compression; 5] = [
    Compression::Uncompressed,
    Compression::Gzip,
    Compression::Snappy,
    Compression::Lz4,
    Compression::Zstd,
];

/// The distinctions that are one byte apart on the wire and change what a
/// compacted topic does.
#[test]
fn null_and_empty_stay_distinct_through_every_codec() {
    let records = vec![
        ProducerRecord::new("t").with_key(b"k1".to_vec()),
        ProducerRecord::new("t").with_key(b"k2".to_vec()).with_value(Vec::new()),
        ProducerRecord::new("t").with_value(b"no key".to_vec()),
        ProducerRecord::new("t").with_key(Vec::new()).with_value(b"v".to_vec()),
    ];

    for codec in CODECS {
        let read = round_trip(&records, codec);
        assert_eq!(read.len(), 4, "{codec:?}");
        assert_eq!(read[0].value, None, "{codec:?}: a tombstone became a value");
        assert_eq!(
            read[1].value,
            Some(Vec::new()),
            "{codec:?}: an empty value became a tombstone"
        );
        assert_eq!(read[2].key, None, "{codec:?}: an absent key gained a value");
        assert_eq!(read[3].key, Some(Vec::new()), "{codec:?}: an empty key became absent");
    }
}

/// Headers keep their order, their null values and their empty names.
#[test]
fn headers_keep_order_nulls_and_empty_names() {
    let records = vec![ProducerRecord::new("t")
        .with_value(b"v".to_vec())
        .with_header("trace", b"a".to_vec())
        .with_null_header("gone")
        .with_header("", b"empty name".to_vec())];

    for codec in CODECS {
        let read = round_trip(&records, codec);
        let headers = &read[0].headers;
        assert_eq!(headers.len(), 3, "{codec:?}");
        assert_eq!(headers[0], ("trace".to_owned(), Some(b"a".to_vec())), "{codec:?}");
        assert_eq!(headers[1], ("gone".to_owned(), None), "{codec:?}");
        assert_eq!(headers[2], (String::new(), Some(b"empty name".to_vec())), "{codec:?}");
    }
}

/// A duplicate header name is written once, with its last value.
#[test]
fn a_duplicate_header_name_is_dropped_and_that_is_an_upstream_limit() {
    let records = vec![ProducerRecord::new("t")
        .with_value(b"v".to_vec())
        .with_header("trace", b"first".to_vec())
        .with_header("trace", b"second".to_vec())];

    let read = round_trip(&records, Compression::Uncompressed);
    assert_eq!(read[0].headers.len(), 1);
    assert_eq!(
        read[0].headers[0],
        ("trace".to_owned(), Some(b"second".to_vec())),
        "the last value wins"
    );
}

/// Any instant an i64 can hold is read back, the last one too.
#[test]
fn the_ends_of_time_survive_every_codec() {
    for codec in CODECS {
        for timestamp in [i64::MIN, i64::MIN + 1, -1, 0, i64::MAX - 1, i64::MAX] {
            let records = vec![ProducerRecord::new("t")
                .with_value(b"v".to_vec())
                .with_timestamp(timestamp)];
            let read = round_trip(&records, codec);
            assert_eq!(read.len(), 1, "{codec:?}: {timestamp}");
            assert_eq!(read[0].timestamp, timestamp, "{codec:?}");
        }
        let records = vec![
            ProducerRecord::new("t").with_timestamp(i64::MAX - 5),
            ProducerRecord::new("t").with_timestamp(i64::MAX),
        ];
        let read = round_trip(&records, codec);
        let timestamps: Vec<i64> = read.iter().map(|record| record.timestamp).collect();
        assert_eq!(timestamps, vec![i64::MAX - 5, i64::MAX], "{codec:?}");
    }
}

/// Record counts either side of a varint width boundary.
#[test]
fn batches_survive_the_varint_boundaries() {
    for count in [1usize, 2, 63, 64, 65, 127, 128, 129, 1000] {
        let records: Vec<ProducerRecord> = (0..count)
            .map(|i| {
                ProducerRecord::new("t")
                    .with_key(format!("k{i}").into_bytes())
                    .with_value(format!("v{i}").into_bytes())
            })
            .collect();

        for codec in CODECS {
            let read = round_trip(&records, codec);
            assert_eq!(read.len(), count, "{codec:?} lost records at {count}");
            for (i, record) in read.iter().enumerate() {
                assert_eq!(
                    record.value.as_deref(),
                    Some(format!("v{i}").as_bytes()),
                    "{codec:?}: record {i} of {count} changed"
                );
                assert_eq!(
                    record.offset,
                    i64::try_from(i).unwrap(),
                    "{codec:?}: relative offsets are wrong at {count}"
                );
            }
        }
    }
}

/// A key or value is arbitrary bytes; treating either as a string is a bug that
/// only shows on data somebody else wrote.
#[test]
fn arbitrary_bytes_survive_unchanged() {
    let nasty: Vec<u8> = (0u8..=255).collect();
    let records = vec![ProducerRecord::new("t")
        .with_key(nasty.clone())
        .with_value(nasty.clone())
        .with_header("h", nasty.clone())];

    for codec in CODECS {
        let read = round_trip(&records, codec);
        assert_eq!(read[0].key.as_deref(), Some(nasty.as_slice()), "{codec:?}");
        assert_eq!(read[0].value.as_deref(), Some(nasty.as_slice()), "{codec:?}");
        assert_eq!(read[0].headers[0].1.as_deref(), Some(nasty.as_slice()), "{codec:?}");
    }
}

/// A large batch exercises the compression path rather than the trivial one,
/// and the decompression bound has to let a legitimate batch through.
#[test]
fn a_large_batch_compresses_and_returns_intact() {
    let big = vec![b'z'; 256 * 1024];
    let records: Vec<ProducerRecord> = (0..8)
        .map(|i| {
            ProducerRecord::new("t")
                .with_key(format!("k{i}").into_bytes())
                .with_value(big.clone())
        })
        .collect();

    for codec in CODECS {
        let read = round_trip(&records, codec);
        assert_eq!(read.len(), 8, "{codec:?}");
        assert_eq!(read[3].value, Some(big.clone()), "{codec:?}");
    }
}

/// Timestamps that a caller chose come back too.
#[test]
fn chosen_timestamps_survive() {
    let records = vec![
        ProducerRecord::new("t").with_value(b"a".to_vec()).with_timestamp(1_700_000_000_123),
        ProducerRecord::new("t").with_value(b"b".to_vec()).with_timestamp(1_699_000_000_000),
    ];
    for codec in CODECS {
        let read = round_trip(&records, codec);
        assert_eq!(read[0].timestamp, 1_700_000_000_123, "{codec:?}");
        assert_eq!(read[1].timestamp, 1_699_000_000_000, "{codec:?}");
        assert_eq!(read[0].producer_id, None, "{codec:?}");
    }
}
