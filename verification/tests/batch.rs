//! Decoding fetched record batches.

use bytes::{BufMut, Bytes, BytesMut};
use kaas_lib::compression::Compression;
use kaas_lib::read::batch::{
    decode_partition, decode_records, decode_records_with_aborted, max_plausible_records,
    peek_header, read_i16, read_i32, read_i64, saturating_difference, saturating_sum,
    AbortedTransaction, DecodeOptions, HeaderProblem, Visibility, ATTRIBUTES, BASE_TIMESTAMP,
    CONTROL_FLAG, MIN_LEN, RECORD_COUNT, TRANSACTIONAL_FLAG,
};
use kaas_lib::read::record::RecordOutcome;
use kaas_lib::wire::TimestampType;
use kafka_protocol::records::{
    Compression as WireCompression, Record as WireRecord, RecordBatchEncoder, RecordEncodeOptions,
    TimestampType as WireTimestampType, NO_PARTITION_LEADER_EPOCH, NO_PRODUCER_EPOCH,
    NO_PRODUCER_ID,
};

const CODECS: [(WireCompression, Compression); 5] = [
    (WireCompression::None, Compression::Uncompressed),
    (WireCompression::Gzip, Compression::Gzip),
    (WireCompression::Snappy, Compression::Snappy),
    (WireCompression::Lz4, Compression::Lz4),
    (WireCompression::Zstd, Compression::Zstd),
];

fn sample_record(offset: i64, value: &str) -> WireRecord {
    WireRecord {
        transactional: false,
        control: false,
        partition_leader_epoch: NO_PARTITION_LEADER_EPOCH,
        producer_id: NO_PRODUCER_ID,
        producer_epoch: NO_PRODUCER_EPOCH,
        timestamp_type: WireTimestampType::Creation,
        offset,
        // The encoder only groups records into one batch when
        // `offset - sequence` is constant across them.
        sequence: i32::try_from(offset).unwrap_or(0),
        timestamp: 1_700_000_000_000 + offset,
        key: Some(Bytes::from(format!("k{offset}"))),
        value: Some(Bytes::from(value.to_owned())),
        headers: Default::default(),
    }
}

fn encode(records: &[WireRecord], compression: WireCompression) -> Vec<u8> {
    let mut buf = BytesMut::new();
    RecordBatchEncoder::encode(
        &mut buf,
        records.iter(),
        &RecordEncodeOptions { version: 2, compression },
    )
    .expect("encodes");
    buf.to_vec()
}

/// Sets batch-level attributes, as a broker or a real producer does.
fn flagged(records: &[WireRecord], flags: i16) -> Vec<u8> {
    let mut buf = encode(records, WireCompression::None);
    let attributes = read_i16(&buf, ATTRIBUTES).expect("attributes");
    let patched = (attributes | flags).to_be_bytes();
    buf[ATTRIBUTES..ATTRIBUTES + 2].copy_from_slice(&patched);
    buf
}

const PID: i64 = 1234;

fn txn_record(offset: i64, value: &str) -> WireRecord {
    let mut record = sample_record(offset, value);
    record.transactional = true;
    record.producer_id = PID;
    record
}

fn values(outcomes: &[RecordOutcome]) -> Vec<String> {
    outcomes
        .iter()
        .filter_map(|outcome| outcome.record())
        .filter_map(|record| record.value.as_ref())
        .map(|value| String::from_utf8_lossy(value).into_owned())
        .collect()
}

fn committed_only() -> DecodeOptions {
    DecodeOptions { visibility: Visibility::CommittedOnly, ..DecodeOptions::default() }
}

#[test]
fn every_codec_round_trips() {
    let records: Vec<_> = (0..10).map(|i| sample_record(i, "payload")).collect();
    for (compression, _) in CODECS {
        let encoded = encode(&records, compression);
        let decoded = decode_partition("orders", 0, encoded, &[], &DecodeOptions::default());
        assert_eq!(decoded.outcomes.len(), 10, "{compression:?}");
        assert!(!decoded.truncated_tail, "{compression:?}");
        for (index, outcome) in decoded.outcomes.iter().enumerate() {
            let record = outcome.record().expect("decoded");
            assert_eq!(record.offset, i64::try_from(index).unwrap_or(0));
            assert_eq!(record.value.as_deref(), Some(&b"payload"[..]));
        }
    }
}

/// The single most important not-a-bug in the whole read path.
#[test]
fn a_truncated_trailing_batch_is_invisible() {
    let records: Vec<_> = (0..10).map(|i| sample_record(i, "payload")).collect();
    let full = encode(&records, WireCompression::None);

    // Cut the buffer mid-batch, the way a broker does at max_bytes.
    for cut in [1usize, 20, 40, full.len() - 1] {
        let truncated = full[..cut].to_vec();
        let decoded = decode_partition("orders", 0, truncated, &[], &DecodeOptions::default());
        assert!(
            decoded.outcomes.iter().all(|o| !o.is_malformed()),
            "cut at {cut} produced a Malformed event"
        );
        assert!(decoded.truncated_tail, "cut at {cut}");
    }
}

#[test]
fn a_complete_batch_followed_by_a_truncated_one_yields_the_complete_records() {
    let first = encode(&[sample_record(0, "first")], WireCompression::None);
    let second = encode(&[sample_record(1, "second")], WireCompression::None);
    let mut buf = first;
    buf.extend_from_slice(&second[..second.len() / 2]);

    let decoded = decode_partition("orders", 0, buf, &[], &DecodeOptions::default());
    assert_eq!(decoded.outcomes.len(), 1);
    assert_eq!(decoded.outcomes[0].offset(), 0);
    assert!(decoded.truncated_tail);
}

#[test]
fn a_corrupt_batch_is_reported_and_the_scan_continues() {
    let first = encode(&[sample_record(0, "first")], WireCompression::None);
    let second = encode(&[sample_record(1, "second")], WireCompression::None);
    let third = encode(&[sample_record(2, "third")], WireCompression::None);

    // Corrupt the middle batch's body, past its header, so the header stays
    // readable and the records do not decode.
    let mut damaged = second;
    let tail = damaged.len() - 1;
    damaged[tail] ^= 0xFF;

    let mut buf = first;
    buf.extend_from_slice(&damaged);
    buf.extend_from_slice(&third);

    let decoded = decode_partition("orders", 0, buf, &[], &DecodeOptions::default());
    // The scan reached the third batch, which is the property that matters.
    assert_eq!(decoded.outcomes.len(), 3, "{decoded:?}");
    assert_eq!(decoded.outcomes[0].offset(), 0);
    assert_eq!(decoded.outcomes[2].offset(), 2);
    assert!(!decoded.truncated_tail);
    assert!(decoded.outcomes[1].is_malformed());
    assert_eq!(decoded.outcomes[1].offset(), 1);
}

/// A batch whose 38-byte payload claims 285 million records is refused by its
/// header, cheaply, before the decoder is ever handed it.
#[test]
fn an_absurd_record_count_is_refused_before_it_becomes_an_allocation() {
    let mut buf = encode(&[sample_record(0, "payload")], WireCompression::None);
    let absurd = 285_212_423i32.to_be_bytes();
    buf[RECORD_COUNT..RECORD_COUNT + 4].copy_from_slice(&absurd);

    let header = peek_header(&buf).expect("the header itself is still well formed");
    assert_eq!(header.record_count, 285_212_423);
    assert!(
        header.record_count > max_plausible_records(&header, &DecodeOptions::default()),
        "the ceiling must reject a count this batch cannot hold"
    );

    let decoded = decode_partition("orders", 0, buf, &[], &DecodeOptions::default());
    assert_eq!(decoded.outcomes.len(), 1);
    assert!(decoded.outcomes[0].is_malformed(), "{decoded:?}");
}

/// The other half: the ceiling must not reject batches real producers write.
#[test]
fn an_honest_record_count_is_within_the_ceiling() {
    for count in [1usize, 2, 50, 500] {
        let records: Vec<_> = (0..count)
            .map(|i| sample_record(i64::try_from(i).unwrap_or(0), "payload"))
            .collect();
        for (compression, _) in CODECS {
            let encoded = encode(&records, compression);
            let header = peek_header(&encoded).expect("header");
            assert_eq!(header.record_count, count, "{compression:?}");
            assert!(
                header.record_count <= max_plausible_records(&header, &DecodeOptions::default()),
                "{count} records compressed with {compression:?} was rejected as implausible"
            );
            // And it still decodes to exactly those records.
            let decoded = decode_partition("orders", 0, encoded, &[], &DecodeOptions::default());
            assert_eq!(decoded.outcomes.len(), count, "{compression:?}");
        }
    }
}

/// The header-level ceiling prices a compressed batch at the configured
/// decompression maximum, so a tiny batch claiming 11M records passes it. The
/// tight check runs against the actual decompressed length; this pins that it
/// fires. The forged header carries a valid checksum, or the checksum would
/// reject the batch first.
#[test]
fn a_compressed_batch_cannot_claim_more_records_than_it_decompresses_to() {
    let mut buf = encode(&[sample_record(0, "payload")], WireCompression::Gzip);
    let claimed = 11_000_000i32;
    buf[RECORD_COUNT..RECORD_COUNT + 4].copy_from_slice(&claimed.to_be_bytes());
    // Re-seal: crc (bytes 17..21) covers attributes (21) to the end.
    let crc = crc32c::crc32c(&buf[21..]);
    buf[17..21].copy_from_slice(&crc.to_be_bytes());

    let header = peek_header(&buf).expect("the header itself is still well formed");
    assert_eq!(header.record_count, 11_000_000);
    assert!(
        header.record_count <= max_plausible_records(&header, &DecodeOptions::default()),
        "this count must slip past the coarse ceiling, or the test proves nothing"
    );

    let decoded = decode_partition("orders", 0, buf, &[], &DecodeOptions::default());
    assert_eq!(decoded.outcomes.len(), 1, "{decoded:?}");
    assert!(decoded.outcomes[0].is_malformed(), "{decoded:?}");
}

#[test]
fn control_batches_are_skipped() {
    let mut control = sample_record(5, "marker");
    control.control = true;
    control.transactional = true;
    let buf = flagged(&[control], CONTROL_FLAG);

    let decoded = decode_partition("orders", 0, buf, &[], &DecodeOptions::default());
    assert!(decoded.outcomes.is_empty(), "{decoded:?}");
    assert_eq!(decoded.control_batches_skipped, 1);
}

#[test]
fn the_batch_header_is_read_without_decoding_the_records() {
    let encoded =
        encode(&[sample_record(100, "x"), sample_record(101, "y")], WireCompression::Gzip);
    let header = peek_header(&encoded).expect("header");
    assert_eq!(header.base_offset, 100);
    assert_eq!(header.last_offset, 101);
    assert_eq!(header.total_len, encoded.len());
    assert_eq!(header.compression, Compression::Gzip);
    assert!(!header.control);
    for (wire, codec) in CODECS {
        let encoded = encode(&[sample_record(0, "x")], wire);
        assert_eq!(peek_header(&encoded).unwrap().compression, codec);
    }
}

#[test]
fn a_short_buffer_is_truncated_not_malformed() {
    assert_eq!(peek_header(&[]), Err(HeaderProblem::Truncated));
    assert_eq!(peek_header(&[0u8; 10]), Err(HeaderProblem::Truncated));
    assert_eq!(peek_header(&[0u8; 60]), Err(HeaderProblem::Truncated));
}

#[test]
fn a_pre_0_11_message_set_is_malformed_not_truncated() {
    // Magic 0 and 1 are the old message sets. Seeing one means something is
    // wrong rather than short.
    let mut buf = BytesMut::new();
    buf.put_i64(0); // base offset
    buf.put_i32(49); // batch length: minimum length less the prefix
    buf.put_i32(0); // partition leader epoch
    buf.put_i8(1); // magic
    buf.put_bytes(0, MIN_LEN - 17);
    assert_eq!(peek_header(&buf), Err(HeaderProblem::Malformed));
}

#[test]
fn a_negative_batch_length_is_malformed() {
    let mut buf = BytesMut::new();
    buf.put_i64(0);
    buf.put_i32(-1);
    buf.put_bytes(0, MIN_LEN);
    assert_eq!(peek_header(&buf), Err(HeaderProblem::Malformed));
}

#[test]
fn aborted_records_are_visible_by_default_and_hidden_on_request() {
    let mut txn = sample_record(0, "rolled back");
    txn.transactional = true;
    txn.producer_id = 1234;
    let buf = flagged(&[txn], TRANSACTIONAL_FLAG);

    let aborted = [AbortedTransaction { producer_id: 1234, first_offset: 0 }];

    let visible =
        decode_partition("orders", 0, buf.clone(), &aborted, &DecodeOptions::default());
    assert_eq!(visible.outcomes.len(), 1, "the default shows the log as it is");
    assert_eq!(visible.aborted_records_skipped, 0);

    let hidden = decode_partition("orders", 0, buf, &aborted, &committed_only());
    assert!(hidden.outcomes.is_empty(), "{hidden:?}");
    assert_eq!(hidden.aborted_records_skipped, 1);
}

/// One producer, a committed transaction followed by an aborted one. The
/// aborted entry names the producer, but its span starts at `first_offset`.
#[test]
fn an_aborted_transaction_does_not_hide_the_same_producers_committed_one() {
    // committed data (0), commit marker (1), aborted data (2), abort marker (3)
    let mut stream = flagged(&[txn_record(0, "committed")], TRANSACTIONAL_FLAG);
    stream.extend_from_slice(&flagged(
        &[txn_record(1, "commit marker")],
        TRANSACTIONAL_FLAG | CONTROL_FLAG,
    ));
    stream.extend_from_slice(&flagged(&[txn_record(2, "aborted")], TRANSACTIONAL_FLAG));
    stream.extend_from_slice(&flagged(
        &[txn_record(3, "abort marker")],
        TRANSACTIONAL_FLAG | CONTROL_FLAG,
    ));

    let aborted = [AbortedTransaction { producer_id: PID, first_offset: 2 }];

    let committed = decode_partition("orders", 0, stream.clone(), &aborted, &committed_only());
    assert_eq!(
        values(&committed.outcomes),
        ["committed"],
        "the committed transaction must stay visible: {committed:?}"
    );
    assert_eq!(committed.aborted_records_skipped, 1);
    assert_eq!(committed.control_batches_skipped, 2);

    // The same stream under `All` shows both halves.
    let everything = decode_partition("orders", 0, stream, &aborted, &DecodeOptions::default());
    assert_eq!(everything.outcomes.len(), 2, "{everything:?}");
}

/// A producer with two aborted transactions back to back: the first marker must
/// not end the second span.
#[test]
fn consecutive_aborted_transactions_each_hide_their_own_span() {
    let mut stream = flagged(&[txn_record(0, "aborted one")], TRANSACTIONAL_FLAG);
    stream.extend_from_slice(&flagged(
        &[txn_record(1, "abort marker")],
        TRANSACTIONAL_FLAG | CONTROL_FLAG,
    ));
    stream.extend_from_slice(&flagged(&[txn_record(2, "aborted two")], TRANSACTIONAL_FLAG));
    stream.extend_from_slice(&flagged(
        &[txn_record(3, "abort marker")],
        TRANSACTIONAL_FLAG | CONTROL_FLAG,
    ));
    stream.extend_from_slice(&flagged(&[txn_record(4, "committed after")], TRANSACTIONAL_FLAG));

    let aborted = [
        AbortedTransaction { producer_id: PID, first_offset: 0 },
        AbortedTransaction { producer_id: PID, first_offset: 2 },
    ];

    let committed = decode_partition("orders", 0, stream.clone(), &aborted, &committed_only());
    assert_eq!(values(&committed.outcomes), ["committed after"], "{committed:?}");
    assert_eq!(committed.aborted_records_skipped, 2);

    // The list is a set: its order does not matter.
    let shuffled = [aborted[1], aborted[0], aborted[1]];
    let again = decode_records_with_aborted("orders", 0, stream, &shuffled, &committed_only());
    assert_eq!(values(&again.outcomes), ["committed after"]);
    assert_eq!(again.aborted_records_skipped, 2);
}

#[test]
fn a_tombstone_survives_as_a_null_value() {
    let mut record = sample_record(0, "");
    record.value = None;
    let encoded = encode(&[record], WireCompression::None);
    let decoded = decode_partition("orders", 0, encoded, &[], &DecodeOptions::default());
    let record = decoded.outcomes[0].record().expect("decoded");
    assert!(record.is_tombstone());
}

#[test]
fn a_decompression_bomb_becomes_a_malformed_batch_not_an_allocation() {
    let big = sample_record(0, &"a".repeat(4 * 1024 * 1024));
    let encoded = encode(&[big], WireCompression::Gzip);
    let decoded = decode_partition(
        "orders",
        0,
        encoded,
        &[],
        &DecodeOptions { max_decompressed_bytes: 4096, ..DecodeOptions::default() },
    );
    assert_eq!(decoded.outcomes.len(), 1);
    assert!(decoded.outcomes[0].is_malformed(), "{decoded:?}");
}

/// A decoded record carries everything the batch says of it.
/// The ceiling on a batch's decompressed size holds for one that is not
/// compressed, too.
#[test]
fn an_uncompressed_batch_past_the_ceiling_is_malformed() {
    let buf = encode(&[sample_record(0, "payload")], WireCompression::None);
    let payload = buf.len() - MIN_LEN;
    let under = |max_decompressed_bytes: usize| {
        let options = DecodeOptions { max_decompressed_bytes, ..DecodeOptions::default() };
        decode_records("orders", 0, buf.clone(), &options)
    };
    assert_eq!(values(&under(payload).outcomes), vec!["payload".to_owned()]);
    assert!(under(payload - 1).outcomes[0].is_malformed());
}

#[test]
fn a_record_carries_what_its_batch_says() {
    let mut wire = txn_record(3, "v");
    wire.partition_leader_epoch = 9;
    wire.headers.insert("h".into(), Some(Bytes::from_static(b"x")));
    wire.headers.insert("gone".into(), None);
    let decoded =
        decode_records("orders", 4, encode(&[wire], WireCompression::Zstd), &DecodeOptions::default());
    let record = decoded.outcomes[0].record().expect("decoded");
    assert_eq!(record.topic, "orders");
    assert_eq!(record.partition, 4);
    assert_eq!(record.offset, 3);
    assert_eq!(record.timestamp, 1_700_000_000_003);
    assert_eq!(record.timestamp_type, TimestampType::Creation);
    assert_eq!(record.key.as_deref(), Some(&b"k3"[..]));
    assert_eq!(
        record.headers,
        vec![("h".to_owned(), Some(b"x".to_vec())), ("gone".to_owned(), None)]
    );
    assert_eq!(record.producer_id, Some(PID));
    assert!(record.transactional);
    assert_eq!(record.leader_epoch, Some(9));
}

/// Sets eight bytes of a batch's header, and seals it again.
fn reset(buf: &mut [u8], at: usize, value: i64) {
    buf[at..at + 8].copy_from_slice(&value.to_be_bytes());
    let crc = crc32c::crc32c(&buf[21..]);
    buf[17..21].copy_from_slice(&crc.to_be_bytes());
}

/// A batch with a record that could not be timed within an i64 is reported
/// rather than handed to the decoder.
#[test]
fn a_batch_out_of_range_is_malformed() {
    let mut buf = encode(&[sample_record(0, "x"), sample_record(1, "y")], WireCompression::None);
    reset(&mut buf, BASE_TIMESTAMP, i64::MAX);
    let decoded = decode_records("orders", 0, buf, &DecodeOptions::default());
    match &decoded.outcomes[0] {
        RecordOutcome::Malformed { reason, .. } => {
            assert_eq!(
                reason.reason,
                "record batch offsets or timestamps are out of range"
            );
        }
        other => panic!("{other:?}"),
    }
}

/// The step is looked for where it is, behind the codec too.
#[test]
fn a_compressed_batch_out_of_range_is_malformed() {
    for (compression, _) in CODECS {
        let mut buf = encode(&[sample_record(0, "x"), sample_record(1, "y")], compression);
        reset(&mut buf, BASE_TIMESTAMP, i64::MAX);
        let decoded = decode_records("orders", 0, buf, &DecodeOptions::default());
        assert_eq!(decoded.outcomes.len(), 1, "{compression:?}");
        assert!(decoded.outcomes[0].is_malformed(), "{compression:?}");
    }
}

/// Near the end of an i64 whatever still fits is read.
#[test]
fn a_batch_at_the_end_of_the_range_is_read() {
    for (compression, _) in CODECS {
        let mut buf = encode(&[sample_record(0, "x"), sample_record(1, "y")], compression);
        reset(&mut buf, BASE_TIMESTAMP, i64::MAX - 1);
        let decoded = decode_records("orders", 0, buf, &DecodeOptions::default());
        let timestamps: Vec<i64> =
            decoded.outcomes.iter().map(|outcome| outcome.record().unwrap().timestamp).collect();
        assert_eq!(timestamps, vec![i64::MAX - 1, i64::MAX], "{compression:?}");

        let mut record = sample_record(7, "x");
        record.timestamp = i64::MAX;
        let buf = encode(&[record], compression);
        let decoded = decode_records("orders", 0, buf, &DecodeOptions::default());
        assert_eq!(decoded.outcomes.len(), 1, "{compression:?}");
        let record = decoded.outcomes[0].record().expect("decoded");
        assert_eq!((record.offset, record.timestamp), (7, i64::MAX), "{compression:?}");
    }
}

/// How far an answer reaches is told by its last whole batch, whatever became
/// of it.
#[test]
fn an_answer_reaches_to_its_last_whole_batch() {
    let options = DecodeOptions::default();
    let decode = |buf: Vec<u8>| decode_records("orders", 0, buf, &options).last_offset;
    assert_eq!(decode(Vec::new()), None);

    let mut buf = encode(&[sample_record(3, "x"), sample_record(4, "y")], WireCompression::Gzip);
    assert_eq!(decode(buf.clone()), Some(4));
    assert_eq!(decode(buf[..buf.len() - 1].to_vec()), None);

    let mut control = sample_record(5, "marker");
    control.control = true;
    buf.extend_from_slice(&flagged(&[control], CONTROL_FLAG));
    assert_eq!(decode(buf.clone()), Some(5));

    let mut corrupt = encode(&[sample_record(6, "x"), sample_record(7, "y")], WireCompression::None);
    let last = corrupt.len() - 1;
    corrupt[last] ^= 0xff;
    buf.extend_from_slice(&corrupt);
    assert_eq!(decode(buf.clone()), Some(7));

    buf.extend_from_slice(&encode(&[sample_record(8, "x")], WireCompression::None)[..20]);
    assert_eq!(decode(buf), Some(7));
}

#[test]
fn a_malformed_header_ends_the_partition() {
    let mut buf = encode(&[sample_record(0, "x")], WireCompression::None);
    let whole = buf.len();
    buf[8..12].copy_from_slice(&(-5i32).to_be_bytes());
    buf.extend_from_slice(&encode(&[sample_record(1, "y")], WireCompression::None));
    let decoded = decode_records("orders", 0, buf, &DecodeOptions::default());
    assert_eq!(decoded.outcomes.len(), 1, "{decoded:?}");
    match &decoded.outcomes[0] {
        RecordOutcome::Malformed { raw, .. } => assert!(raw.len() > whole),
        other => panic!("{other:?}"),
    }
}

#[test]
fn numbers_are_read_where_there_is_room() {
    let buf = [0x01, 0x02, 0x03, 0x04, 0x05, 0x06, 0x07, 0x08, 0xff];
    assert_eq!(read_i16(&buf, 0), Some(0x0102));
    assert_eq!(read_i32(&buf, 1), Some(0x0203_0405));
    assert_eq!(read_i64(&buf, 0), Some(0x0102_0304_0506_0708));
    assert_eq!(read_i16(&[0xff, 0xfe], 0), Some(-2));
    assert_eq!(read_i16(&buf, 8), None);
    assert_eq!(read_i64(&buf, 2), None);
    assert_eq!(read_i32(&buf, usize::MAX), None);
    assert_eq!(saturating_sum(i64::MAX, 1), i64::MAX);
    assert_eq!(saturating_difference(i64::MIN, 1), i64::MIN);
    assert_eq!(saturating_difference(5, 7), -2);
}
