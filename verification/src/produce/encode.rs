//! Turning records into the bytes a `Produce` request carries.
//!
//! v2 batches only. v0 and v1 message sets are pre-0.11 and this library does
//! not write them.

use kafka_protocol::records::{
    Compression as Codec, Record as ProtocolRecord, RecordBatchEncoder, RecordEncodeOptions,
    TimestampType as Timestamps,
};
use vstd::prelude::*;
use vstd::string::*;

use crate::compression::Compression;
use crate::error::{invalid_request, Error, ErrorView};
use crate::produce::idempotence::BatchIdentity;
use crate::produce::record::{producer_views, ProducerRecord, ProducerRecordView};
use crate::read::batch::{
    batch_fits, batch_outcomes, batch_records, converted, decoded, filtered_by, further, header_of,
    hiding, i32_at, plausible_records, record_outcomes, walked, AbortedTransaction,
    BatchHeader, DecodeOptions, MIN_LEN,
};
use crate::read::decompress::{
    decompressed, unpacked, DecompressErrorView, MIN_RECORD_BYTES, SNAPPY_MAX_RATIO,
};
use crate::read::record::OutcomeView;
use crate::text::signed;
use crate::wire::{
    header_view, headers_in, headers_of, name_position, no_headers, outcome_of,
    put_header, to_wire, wire_views, with_header, HeaderMap, HeaderView, TimestampType, WireRecord,
    WireRecordView,
};

verus! {

/// The producer id of a batch that has none.
pub const NO_PRODUCER_ID: i64 = -1;

/// The producer epoch of a batch that has none.
pub const NO_PRODUCER_EPOCH: i16 = -1;

/// The leader epoch of a batch that has none.
pub const NO_PARTITION_LEADER_EPOCH: i32 = -1;

/// The base sequence of a batch that has none.
pub const NO_SEQUENCE: i32 = -1;

/// Where the base sequence stands in a batch header.
pub const BASE_SEQUENCE: usize = 53;

/// Headers with each name once: at its first place, with its last value.
pub open spec fn collapsed(headers: Seq<HeaderView>) -> Seq<HeaderView>
    decreases headers.len(),
{
    if headers.len() == 0 {
        seq![]
    } else {
        with_header(collapsed(headers.drop_last()), headers.last())
    }
}

/// Whether no header name occurs twice.
pub open spec fn names_distinct(headers: Seq<HeaderView>) -> bool {
    forall|i: int, j: int|
        0 <= i < j < headers.len() ==> (#[trigger] headers[i]).0 != (#[trigger] headers[j]).0
}

/// A first occurrence is an occurrence, and there is none before it; without
/// one the name does not occur.
pub proof fn lemma_name_position(headers: Seq<HeaderView>, name: Seq<char>)
    ensures
        match name_position(headers, name) {
            Some(at) => 0 <= at < headers.len() && headers[at].0 == name && forall|k: int|
                0 <= k < at ==> (#[trigger] headers[k]).0 != name,
            None => forall|k: int| 0 <= k < headers.len() ==> (#[trigger] headers[k]).0 != name,
        },
    decreases headers.len(),
{
    if headers.len() > 0 {
        let shorter = headers.drop_last();
        lemma_name_position(shorter, name);
        assert forall|k: int| 0 <= k < shorter.len() implies shorter[k] == #[trigger] headers[k] by {}
    }
}

/// Collapsed headers repeat no name.
pub proof fn collapsed_names_are_distinct(headers: Seq<HeaderView>)
    ensures
        names_distinct(collapsed(headers)),
    decreases headers.len(),
{
    if headers.len() > 0 {
        let before = collapsed(headers.drop_last());
        collapsed_names_are_distinct(headers.drop_last());
        lemma_name_position(before, headers.last().0);
    }
}

/// Headers that repeat no name are written as they are.
pub proof fn distinct_headers_are_kept(headers: Seq<HeaderView>)
    requires
        names_distinct(headers),
    ensures
        collapsed(headers) == headers,
    decreases headers.len(),
{
    if headers.len() > 0 {
        let shorter = headers.drop_last();
        assert(names_distinct(shorter));
        distinct_headers_are_kept(shorter);
        lemma_name_position(shorter, headers.last().0);
        assert(collapsed(headers) =~= headers);
    } else {
        assert(collapsed(headers) =~= headers);
    }
}

/// Headers with each name once: at its first place, with its last value.
fn collapse_headers(headers: &Vec<(String, Option<Vec<u8>>)>) -> (kept: HeaderMap)
    ensures
        headers_in(kept) == collapsed(headers_of(headers@)),
{
    let mut kept = no_headers();
    let ghost views = headers_of(headers@);
    let mut i: usize = 0;
    while i < headers.len()
        invariant
            i <= headers.len(),
            views == headers_of(headers@),
            headers_in(kept) == collapsed(views.take(i as int)),
        decreases headers.len() - i,
    {
        proof {
            assert(views.take(i + 1).drop_last() =~= views.take(i as int));
            assert(views.take(i + 1).last() == header_view(headers@[i as int]));
        }
        put_header(&mut kept, &headers[i].0, to_wire(&headers[i].1));
        i += 1;
    }
    assert(views.take(i as int) =~= views);
    kept
}

/// What a record is stamped with at place `index` of its batch.
pub open spec fn stamped(
    record: ProducerRecordView,
    index: int,
    now: i64,
    identity: Option<BatchIdentity>,
) -> WireRecordView {
    let base = match identity {
        Some(identity) => identity.base_sequence,
        None => NO_SEQUENCE,
    };
    WireRecordView {
        transactional: identity matches Some(identity) && identity.transactional,
        control: false,
        partition_leader_epoch: NO_PARTITION_LEADER_EPOCH,
        producer_id: match identity {
            Some(identity) => identity.producer_id,
            None => NO_PRODUCER_ID,
        },
        producer_epoch: match identity {
            Some(identity) => identity.producer_epoch,
            None => NO_PRODUCER_EPOCH,
        },
        timestamp_type: TimestampType::Creation,
        offset: if index > i64::MAX {
            0
        } else {
            index as i64
        },
        sequence: base.wrapping_add(
            if index > i32::MAX {
                0
            } else {
                index as i32
            },
        ),
        timestamp: match record.timestamp {
            Some(timestamp) => timestamp,
            None => now,
        },
        key: record.key,
        value: record.value,
        headers: collapsed(record.headers),
    }
}

/// A batch's records, stamped.
pub open spec fn stamped_batch(
    records: Seq<ProducerRecordView>,
    now: i64,
    identity: Option<BatchIdentity>,
) -> Seq<WireRecordView> {
    Seq::new(records.len(), |i: int| stamped(records[i], i, now, identity))
}

/// Stamps one record.
fn stamp(record: &ProducerRecord, index: usize, now: i64, identity: &Option<BatchIdentity>) -> (wire:
    WireRecord)
    ensures
        wire@ == stamped(record@, index as int, now, *identity),
{
    let base: i32 = match identity {
        Some(identity) => identity.base_sequence,
        None => NO_SEQUENCE,
    };
    let step: i32 = if index > i32::MAX as usize {
        0
    } else {
        index as i32
    };
    WireRecord {
        transactional: match identity {
            Some(identity) => identity.transactional,
            None => false,
        },
        control: false,
        partition_leader_epoch: NO_PARTITION_LEADER_EPOCH,
        producer_id: match identity {
            Some(identity) => identity.producer_id,
            None => NO_PRODUCER_ID,
        },
        producer_epoch: match identity {
            Some(identity) => identity.producer_epoch,
            None => NO_PRODUCER_EPOCH,
        },
        timestamp_type: TimestampType::Creation,
        // Offsets within a batch are relative and start at zero; the broker
        // rewrites them to absolute ones on append.
        offset: if index as u64 > i64::MAX as u64 {
            0
        } else {
            index as i64
        },
        // Counting up from the base keeps `offset - sequence` constant, which
        // is what keeps the records in one batch. Without an identity the base
        // is -1, which is what a non-idempotent producer must send.
        sequence: base.wrapping_add(step),
        timestamp: match record.timestamp {
            Some(timestamp) => timestamp,
            None => now,
        },
        key: to_wire(&record.key),
        value: to_wire(&record.value),
        headers: collapse_headers(&record.headers),
    }
}

/// Whether the records of a batch are numbered and marked alike, so that they
/// are written as one batch: offsets from zero, sequences from the first one's.
pub open spec fn one_batch(records: Seq<WireRecordView>) -> bool {
    &&& 0 < records.len() <= i32::MAX
    &&& forall|i: int|
        0 <= i < records.len() ==> {
            let record = #[trigger] records[i];
            &&& record.offset == i
            &&& record.sequence == records[0].sequence.wrapping_add(i as i32)
            &&& record.transactional == records[0].transactional
            &&& record.control == records[0].control
            &&& record.partition_leader_epoch == records[0].partition_leader_epoch
            &&& record.producer_id == records[0].producer_id
            &&& record.producer_epoch == records[0].producer_epoch
        }
}

/// The header that one batch of such records opens with.
pub open spec fn opens_with(
    header: BatchHeader,
    records: Seq<WireRecordView>,
    compression: Compression,
    total_len: nat,
) -> bool {
    &&& header.base_offset == 0
    &&& header.last_offset == records.len() - 1
    &&& header.total_len == total_len
    &&& header.control == records[0].control
    &&& header.transactional == records[0].transactional
    &&& header.producer_id == records[0].producer_id
    &&& header.compression == compression
    &&& header.record_count == records.len()
    &&& exists|i: int| 0 <= i < records.len() && header.base_timestamp == (#[trigger] records[i]).timestamp
}

/// Whether a decompression limit has room for a batch: for the records as they
/// are written without a codec, and, of a snappy batch, for the most that its
/// frame could expand to.
pub open spec fn has_room(
    bytes: Seq<u8>,
    compression: Compression,
    plain: Seq<u8>,
    limit: usize,
) -> bool {
    &&& plain.len() - MIN_LEN <= limit
    &&& compression == Compression::Snappy ==> bytes.len() - MIN_LEN <= limit / SNAPPY_MAX_RATIO
}

/// Whether a batch's payload decompresses to that of the same records' batch
/// without a codec, which has room for so many of them.
pub open spec fn expands_to(
    bytes: Seq<u8>,
    compression: Compression,
    plain: Seq<u8>,
    count: nat,
) -> bool {
    &&& count <= (plain.len() - MIN_LEN) / MIN_RECORD_BYTES as int
    &&& forall|limit: usize|
        has_room(bytes, compression, plain, limit) ==> #[trigger] decompressed(
            bytes.skip(MIN_LEN as int),
            compression,
            limit,
        ) == Ok::<Seq<u8>, DecompressErrorView>(plain.skip(MIN_LEN as int))
}

/// What `RecordBatchEncoder` writes for some records: the bytes, or what it
/// says went wrong.
pub uninterp spec fn encoded(records: Seq<WireRecordView>, compression: Compression) -> Result<
    Seq<u8>,
    Seq<char>,
>;

/// Encodes records with `kafka_protocol::records::RecordBatchEncoder::encode`,
/// as record batch version 2.
///
/// The contract names the result after the records and the codec, and claims
/// of records that belong in one batch that they are written as one: nothing
/// but a header that says what they share, their count and their first
/// sequence, and a payload that, once it is decompressed, the decoder turns
/// back into the same records: the steps in it lead from the header's offset
/// and timestamp to each record's own, which are i64s. The payload is what the
/// codec makes of the very bytes that are written without one, so decompressing
/// it gives those back, where there is room for them; and a record takes no
/// fewer of them than the decoder holds possible. Differences of timestamps
/// have to fit an i64.
#[verifier::external_body]
fn encode_records(records: Vec<WireRecord>, compression: Compression) -> (result: Result<
    Vec<u8>,
    String,
>)
    requires
        forall|i: int|
            0 <= i < records@.len() ==> {
                &&& (#[trigger] records@[i]).timestamp_type == TimestampType::Creation
                &&& records@[i].offset >= 0
            },
        forall|i: int, j: int|
            0 <= i < records@.len() && 0 <= j < records@.len() ==> (
            #[trigger] records@[i]).timestamp - (#[trigger] records@[j]).timestamp <= i64::MAX,
    ensures
        outcome_of(result) == encoded(wire_views(records@), compression),
        one_batch(wire_views(records@)) ==> (result matches Ok(bytes) ==> {
            &&& header_of(bytes@) matches Ok(header) && opens_with(
                header,
                wire_views(records@),
                compression,
                bytes@.len(),
            )
            &&& i32_at(bytes@, BASE_SEQUENCE as int) == records@[0].sequence
            &&& encoded(wire_views(records@), Compression::Uncompressed) matches Ok(plain)
                ==> expands_to(bytes@, compression, plain, records@.len())
            &&& forall|limit: usize|
                #[trigger] batch_fits(
                    header_of(bytes@)->Ok_0,
                    bytes@,
                    records@.len() as usize,
                    limit,
                )
            &&& forall|limit: usize|
                #![trigger batch_records(bytes@, records@.len() as usize, limit)]
                unpacked(
                    bytes@.skip(MIN_LEN as int),
                    compression,
                    records@.len() as usize,
                    limit,
                ) is Ok ==> batch_records(bytes@, records@.len() as usize, limit) == Ok::<
                    Seq<WireRecordView>,
                    Seq<char>,
                >(wire_views(records@))
        }),
{
    let wire: Vec<_> = records.into_iter().map(|WireRecord { transactional, control, partition_leader_epoch, producer_id, producer_epoch, offset, sequence, timestamp, key, value, headers, .. }| ProtocolRecord { transactional, control, partition_leader_epoch, producer_id, producer_epoch, timestamp_type: Timestamps::Creation, offset, sequence, timestamp, key, value, headers }).collect();
    let codec = [Codec::None, Codec::Gzip, Codec::Snappy, Codec::Lz4, Codec::Zstd][compression.wire() as usize];
    let mut out = bytes::BytesMut::new();
    let options = RecordEncodeOptions { version: 2, compression: codec };
    match RecordBatchEncoder::encode(&mut out, &wire, &options) {
        Ok(_) => Ok(out.to_vec()),
        Err(error) => Err(error.to_string()),
    }
}

/// The earliest and the latest timestamp of a batch.
fn timestamp_bounds(records: &Vec<WireRecord>) -> (bounds: (i64, i64))
    requires
        records@.len() > 0,
    ensures
        bounds.0 == earliest(wire_views(records@)),
        bounds.1 == latest(wire_views(records@)),
{
    let ghost views = wire_views(records@);
    let mut low: i64 = records[0].timestamp;
    let mut high: i64 = records[0].timestamp;
    let mut i: usize = 1;
    assert(views.take(1)[0] == records@[0]@);
    while i < records.len()
        invariant
            1 <= i <= records@.len(),
            views == wire_views(records@),
            low == earliest(views.take(i as int)),
            high == latest(views.take(i as int)),
        decreases records.len() - i,
    {
        let timestamp: i64 = records[i].timestamp;
        proof {
            assert(views.take(i + 1).drop_last() =~= views.take(i as int));
            assert(views.take(i + 1).last() == records@[i as int]@);
        }
        if timestamp < low {
            low = timestamp;
        }
        if timestamp > high {
            high = timestamp;
        }
        i += 1;
    }
    assert(views.take(i as int) =~= views);
    (low, high)
}

/// Whether the difference of any two timestamps of a batch is an i64.
pub open spec fn timestamps_fit(records: Seq<WireRecordView>) -> bool {
    forall|i: int, j: int|
        0 <= i < records.len() && 0 <= j < records.len() ==> (#[trigger] records[i]).timestamp - (
        #[trigger] records[j]).timestamp <= i64::MAX
}

/// The earliest timestamp of a batch.
pub open spec fn earliest(records: Seq<WireRecordView>) -> i64
    recommends
        records.len() > 0,
    decreases records.len(),
{
    if records.len() <= 1 {
        records[0].timestamp
    } else {
        let before = earliest(records.drop_last());
        if records.last().timestamp < before {
            records.last().timestamp
        } else {
            before
        }
    }
}

/// The latest timestamp of a batch.
pub open spec fn latest(records: Seq<WireRecordView>) -> i64
    recommends
        records.len() > 0,
    decreases records.len(),
{
    if records.len() <= 1 {
        records[0].timestamp
    } else {
        let before = latest(records.drop_last());
        if records.last().timestamp > before {
            records.last().timestamp
        } else {
            before
        }
    }
}

/// The earliest and the latest timestamp bound them all, and occur.
proof fn lemma_timestamp_bounds(records: Seq<WireRecordView>)
    requires
        records.len() > 0,
    ensures
        forall|i: int|
            0 <= i < records.len() ==> earliest(records) <= (#[trigger] records[i]).timestamp
                <= latest(records),
        exists|i: int| 0 <= i < records.len() && (#[trigger] records[i]).timestamp == earliest(records),
        exists|i: int| 0 <= i < records.len() && (#[trigger] records[i]).timestamp == latest(records),
    decreases records.len(),
{
    if records.len() == 1 {
        assert(records[0].timestamp == earliest(records));
    } else {
        let shorter = records.drop_last();
        lemma_timestamp_bounds(shorter);
        let low = choose|i: int| 0 <= i < shorter.len() && (#[trigger] shorter[i]).timestamp == earliest(shorter);
        let high = choose|i: int| 0 <= i < shorter.len() && (#[trigger] shorter[i]).timestamp == latest(shorter);
        assert(records[low] == shorter[low]);
        assert(records[high] == shorter[high]);
        let last = records.len() - 1;
        assert(records[last] == records.last());
        assert forall|i: int| 0 <= i < records.len() implies earliest(records) <= (
        #[trigger] records[i]).timestamp <= latest(records) by {
            if i < last {
                assert(shorter[i] == records[i]);
            }
        }
    }
}

/// The bytes a batch is written as, or why it cannot be.
pub open spec fn batch_bytes(records: Seq<WireRecordView>, compression: Compression) -> Result<
    Seq<u8>,
    ErrorView,
> {
    if !timestamps_fit(records) {
        Err(invalid_request(too_far_apart(earliest(records), latest(records))))
    } else {
        match encoded(records, compression) {
            Ok(bytes) => Ok(bytes),
            Err(reason) => Err(invalid_request("could not encode a record batch: "@ + reason)),
        }
    }
}

/// The plain form of an encoding's result.
pub open spec fn encode_view(result: Result<Vec<u8>, Error>) -> Result<Seq<u8>, ErrorView> {
    match result {
        Ok(bytes) => Ok(bytes@),
        Err(error) => Err(error@),
    }
}

/// What is said of timestamps that are too far apart.
pub open spec fn too_far_apart(low: i64, high: i64) -> Seq<char> {
    "could not encode a record batch: Timestamps within batch are too far apart ("@
        + crate::text::signed_of(low as int) + ", "@ + crate::text::signed_of(high as int) + ")"@
}

/// The records a reader sees of a batch that was written from `records`: each
/// of them, in order, numbered from zero.
pub open spec fn read_back(
    topic: Seq<char>,
    partition: i32,
    records: Seq<ProducerRecordView>,
    now: i64,
    identity: Option<BatchIdentity>,
) -> Seq<OutcomeView> {
    Seq::new(
        records.len(),
        |i: int|
            OutcomeView::Decoded(
                converted(topic, partition, stamped(records[i], i, now, identity)),
            ),
    )
}

/// Whether decoding a batch's bytes gives back what was written, under every
/// decompression limit that has room for the records.
pub open spec fn reads_back(
    bytes: Seq<u8>,
    records: Seq<ProducerRecordView>,
    compression: Compression,
    now: i64,
    identity: Option<BatchIdentity>,
) -> bool {
    forall|topic: Seq<char>, partition: i32, options: DecodeOptions|
        unpacks(
            stamped_batch(records, now, identity),
            bytes,
            compression,
            options.max_decompressed_bytes,
        ) ==> #[trigger] decoded(topic, partition, bytes, seq![], options).outcomes == read_back(
            topic,
            partition,
            records,
            now,
            identity,
        )
}

/// Whether the batch of some records can be unpacked under a limit.
pub open spec fn unpacks(
    records: Seq<WireRecordView>,
    bytes: Seq<u8>,
    compression: Compression,
    limit: usize,
) -> bool {
    match compression {
        Compression::Uncompressed => bytes.len() - MIN_LEN <= limit,
        _ => encoded(records, Compression::Uncompressed) matches Ok(plain) && has_room(
            bytes,
            compression,
            plain,
            limit,
        ),
    }
}

/// Stamped records that fit one batch are one batch.
proof fn lemma_stamped_is_one_batch(
    records: Seq<ProducerRecordView>,
    now: i64,
    identity: Option<BatchIdentity>,
)
    requires
        0 < records.len() <= i32::MAX,
    ensures
        one_batch(stamped_batch(records, now, identity)),
{
    let wire = stamped_batch(records, now, identity);
    let base = match identity {
        Some(identity) => identity.base_sequence,
        None => NO_SEQUENCE,
    };
    assert(wire[0].sequence == base);
    assert forall|i: int| 0 <= i < wire.len() implies (#[trigger] wire[i]).sequence
        == wire[0].sequence.wrapping_add(i as i32) by {}
}

/// The outcomes of records none of which is a marker are the records.
proof fn lemma_record_outcomes(topic: Seq<char>, partition: i32, records: Seq<WireRecordView>)
    requires
        forall|i: int| 0 <= i < records.len() ==> !(#[trigger] records[i]).control,
    ensures
        record_outcomes(topic, partition, records) == Seq::new(
            records.len(),
            |i: int| OutcomeView::Decoded(converted(topic, partition, records[i])),
        ),
    decreases records.len(),
{
    let all = Seq::new(
        records.len(),
        |i: int| OutcomeView::Decoded(converted(topic, partition, records[i])),
    );
    if records.len() > 0 {
        lemma_record_outcomes(topic, partition, records.drop_last());
        assert(record_outcomes(topic, partition, records) =~= all);
    } else {
        assert(record_outcomes(topic, partition, records) =~= all);
    }
}

/// A buffer that is one plausible batch of user data decodes to its records.
proof fn lemma_one_batch_decodes(
    topic: Seq<char>,
    partition: i32,
    bytes: Seq<u8>,
    options: DecodeOptions,
    wire: Seq<WireRecordView>,
)
    requires
        header_of(bytes) matches Ok(header) && header.total_len == bytes.len() && !header.control
            && header.record_count <= plausible_records(header, options.max_decompressed_bytes)
            && batch_fits(
            header,
            bytes,
            header.record_count,
            options.max_decompressed_bytes,
        ) && batch_records(
            bytes,
            header.record_count,
            options.max_decompressed_bytes,
        ) == Ok::<Seq<WireRecordView>, Seq<char>>(wire),
        forall|i: int| 0 <= i < wire.len() ==> !(#[trigger] wire[i]).control,
    ensures
        decoded(topic, partition, bytes, seq![], options).outcomes == Seq::new(
            wire.len(),
            |i: int| OutcomeView::Decoded(converted(topic, partition, wire[i])),
        ),
{
    let header = header_of(bytes)->Ok_0;
    let limit = options.max_decompressed_bytes;
    let none = Seq::<AbortedTransaction>::empty();
    let hidden = hiding(Set::empty(), none, i64::MIN - 1, header.base_offset as int);
    assert(hidden =~= Set::<i64>::empty());
    let batch = bytes.take(bytes.len() as int);
    assert(batch =~= bytes);
    let rest = bytes.skip(bytes.len() as int);
    assert(rest.len() == 0);
    let after = walked(
        topic,
        partition,
        rest,
        none,
        limit,
        further(i64::MIN - 1, header.base_offset as int),
        hidden,
    );
    assert(after.outcomes =~= Seq::<OutcomeView>::empty());
    lemma_record_outcomes(topic, partition, wire);
    assert(filtered_by(none, options.visibility) =~= none);
    let own = batch_outcomes(topic, partition, header, batch, limit);
    assert(own == record_outcomes(topic, partition, wire));
    assert(decoded(topic, partition, bytes, seq![], options).outcomes == own + after.outcomes);
    assert(own + after.outcomes =~= own);
}

/// A batch that opens as it should and whose payload decodes to what was
/// written reads back.
proof fn lemma_reads_back(
    bytes: Seq<u8>,
    records: Seq<ProducerRecordView>,
    compression: Compression,
    now: i64,
    identity: Option<BatchIdentity>,
)
    requires
        0 < records.len() <= i32::MAX,
        header_of(bytes) matches Ok(header) && opens_with(
            header,
            stamped_batch(records, now, identity),
            compression,
            bytes.len(),
        ) && forall|limit: usize|
            #[trigger] batch_fits(header, bytes, records.len() as usize, limit),
        encoded(stamped_batch(records, now, identity), compression) == Ok::<Seq<u8>, Seq<char>>(
            bytes,
        ),
        encoded(stamped_batch(records, now, identity), Compression::Uncompressed) matches Ok(plain)
            ==> expands_to(bytes, compression, plain, records.len()),
        forall|limit: usize|
            #![trigger batch_records(bytes, records.len() as usize, limit)]
            unpacked(bytes.skip(MIN_LEN as int), compression, records.len() as usize, limit) is Ok
                ==> batch_records(bytes, records.len() as usize, limit) == Ok::<
                Seq<WireRecordView>,
                Seq<char>,
            >(stamped_batch(records, now, identity)),
    ensures
        reads_back(bytes, records, compression, now, identity),
{
    let wire = stamped_batch(records, now, identity);
    let header = header_of(bytes)->Ok_0;
    assert forall|topic: Seq<char>, partition: i32, options: DecodeOptions|
        unpacks(
            wire,
            bytes,
            compression,
            options.max_decompressed_bytes,
        ) implies #[trigger] decoded(topic, partition, bytes, seq![], options).outcomes == read_back(
        topic,
        partition,
        records,
        now,
        identity,
    ) by {
        let limit = options.max_decompressed_bytes;
        assert(batch_fits(header, bytes, records.len() as usize, limit));
        let plain = encoded(wire, Compression::Uncompressed)->Ok_0;
        assert(expands_to(bytes, compression, plain, records.len()));
        assert(has_room(bytes, compression, plain, limit));
        assert(decompressed(bytes.skip(MIN_LEN as int), compression, limit) == Ok::<
            Seq<u8>,
            DecompressErrorView,
        >(plain.skip(MIN_LEN as int)));
        assert(unpacked(bytes.skip(MIN_LEN as int), compression, records.len() as usize, limit) is Ok);
        assert(batch_records(bytes, records.len() as usize, options.max_decompressed_bytes) == Ok::<
            Seq<WireRecordView>,
            Seq<char>,
        >(wire));
        lemma_one_batch_decodes(topic, partition, bytes, options, wire);
        assert(read_back(topic, partition, records, now, identity) =~= Seq::new(
            wire.len(),
            |i: int| OutcomeView::Decoded(converted(topic, partition, wire[i])),
        ));
    }
}

/// Encodes records into one v2 batch.
///
/// `now` is passed in rather than read here so a batch's records share one
/// clock reading. `identity` is `Some` for an idempotent producer and stamps
/// the batch with the producer id, epoch and base sequence the broker
/// deduplicates on; `None` writes no producer id and a base sequence of -1.
///
/// A batch that encodes is one batch, numbered from the base sequence, and
/// reads back as the records it was made of.
pub fn encode_batch(
    records: &Vec<ProducerRecord>,
    compression: Compression,
    now: i64,
    identity: Option<BatchIdentity>,
) -> (result: Result<Vec<u8>, Error>)
    ensures
        encode_view(result) == batch_bytes(
            stamped_batch(producer_views(records@), now, identity),
            compression,
        ),
        ({
            let wire = stamped_batch(producer_views(records@), now, identity);
            0 < records@.len() <= i32::MAX ==> (result matches Ok(bytes) ==> {
                &&& header_of(bytes@) matches Ok(header) && opens_with(
                    header,
                    wire,
                    compression,
                    bytes@.len(),
                )
                &&& i32_at(bytes@, BASE_SEQUENCE as int) == wire[0].sequence
                &&& reads_back(
                    bytes@,
                    producer_views(records@),
                    compression,
                    now,
                    identity,
                )
            })
        }),
{
    let ghost views = producer_views(records@);
    let ghost wire_batch = stamped_batch(views, now, identity);
    let mut wire: Vec<WireRecord> = Vec::new();
    let mut i: usize = 0;
    while i < records.len()
        invariant
            i <= records.len(),
            views == producer_views(records@),
            wire_batch == stamped_batch(views, now, identity),
            wire@.len() == i,
            forall|k: int| 0 <= k < i ==> (#[trigger] wire@[k])@ == wire_batch[k],
        decreases records.len() - i,
    {
        wire.push(stamp(&records[i], i, now, &identity));
        i += 1;
    }
    assert(wire_views(wire@) =~= wire_batch);
    if wire.len() > 0 {
        let (low, high) = timestamp_bounds(&wire);
        if high as i128 - low as i128 > i64::MAX as i128 {
            let mut text =
                "could not encode a record batch: Timestamps within batch are too far apart (".to_owned();
            text.append(signed(low).as_str());
            text.append(", ");
            text.append(signed(high).as_str());
            text.append(")");
            proof {
                lemma_timestamp_bounds(wire_batch);
                assert(!timestamps_fit(wire_batch)) by {
                    let a = choose|k: int|
                        0 <= k < wire_batch.len() && (#[trigger] wire_batch[k]).timestamp == low;
                    let b = choose|k: int|
                        0 <= k < wire_batch.len() && (#[trigger] wire_batch[k]).timestamp == high;
                    assert(wire_batch[b].timestamp - wire_batch[a].timestamp > i64::MAX);
                }
            }
            return Err(Error::invalid_request(text));
        }
        proof {
            lemma_timestamp_bounds(wire_batch);
        }
    }
    proof {
        if 0 < records@.len() <= i32::MAX {
            lemma_stamped_is_one_batch(views, now, identity);
        }
        assert forall|k: int, l: int| 0 <= k < wire@.len() && 0 <= l < wire@.len() implies (
        #[trigger] wire@[k]).timestamp - (#[trigger] wire@[l]).timestamp <= i64::MAX by {
            assert(wire_batch[k] == wire@[k]@);
            assert(wire_batch[l] == wire@[l]@);
        }
        assert forall|k: int| 0 <= k < wire@.len() implies (#[trigger] wire@[k]).timestamp_type
            == TimestampType::Creation && wire@[k].offset >= 0 by {
            assert(wire@[k]@ == wire_batch[k]);
        }
    }
    match encode_records(wire, compression) {
        Ok(bytes) => {
            proof {
                if 0 < records@.len() <= i32::MAX {
                    lemma_reads_back(bytes@, views, compression, now, identity);
                }
            }
            Ok(bytes)
        },
        Err(reason) => {
            let mut text = "could not encode a record batch: ".to_owned();
            text.append(reason.as_str());
            Err(Error::invalid_request(text))
        },
    }
}

/// Encodes records as a producer without an identity does, at the epoch: the
/// entry point for round-trip checks against the decoder.
pub fn encode_for_fuzzing(records: &Vec<ProducerRecord>, compression: Compression) -> (result: Result<
    Vec<u8>,
    Error,
>)
    ensures
        encode_view(result) == batch_bytes(
            stamped_batch(producer_views(records@), 0, None),
            compression,
        ),
        0 < records@.len() <= i32::MAX ==> (result matches Ok(bytes) ==> reads_back(
            bytes@,
            producer_views(records@),
            compression,
            0,
            None,
        )),
{
    encode_batch(records, compression, 0, None)
}

} // verus!
