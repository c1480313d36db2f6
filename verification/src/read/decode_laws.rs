//! What holds of every partition that is decoded, field by field.

use vstd::prelude::*;

use crate::compression::{codec_of, Compression};
use crate::read::batch::{
    batch_fits, batch_markers, batch_outcomes, batch_records, big_endian, converted, decoded,
    far_from_the_ends, further, header_of, hiding, i16_at, i32_at, i64_at, marker_count, offset_span,
    payload_fits, plausible_records, record_fits, record_outcomes, saturating, step_at, unzigzag,
    varint, walked, AbortedTransaction, BatchHeader, DecodeOptions, HeaderProblem, Visibility,
};
use crate::read::record::OutcomeView;
use crate::wire::WireRecordView;

verus! {

/// The numbers of a header are big-endian and in two's complement.
pub proof fn numbers_are_big_endian(buf: Seq<u8>, at: int)
    requires
        0 <= at,
    ensures
        at + 2 <= buf.len() ==> ({
            let n = 0x100 * buf[at] + buf[at + 1];
            i16_at(buf, at) == if n < 0x8000 {
                n
            } else {
                n - 0x1_0000
            }
        }),
        at + 4 <= buf.len() ==> ({
            let n = 0x100_0000 * buf[at] + 0x1_0000 * buf[at + 1] + 0x100 * buf[at + 2] + buf[at
                + 3];
            i32_at(buf, at) == if n < 0x8000_0000 {
                n
            } else {
                n - 0x1_0000_0000
            }
        }),
        at + 8 <= buf.len() ==> ({
            let high = 0x100_0000 * buf[at] + 0x1_0000 * buf[at + 1] + 0x100 * buf[at + 2] + buf[at
                + 3];
            let low = 0x100_0000 * buf[at + 4] + 0x1_0000 * buf[at + 5] + 0x100 * buf[at + 6]
                + buf[at + 7];
            let n = 0x1_0000_0000 * high + low;
            i64_at(buf, at) == if n < 0x8000_0000_0000_0000 {
                n
            } else {
                n - 0x1_0000_0000_0000_0000
            }
        }),
{
    if at + 2 <= buf.len() {
        lemma_big_endian(buf.subrange(at, at + 2));
    }
    if at + 4 <= buf.len() {
        lemma_big_endian(buf.subrange(at, at + 4));
    }
    if at + 8 <= buf.len() {
        lemma_big_endian(buf.subrange(at, at + 8));
    }
}

/// What two, four and eight bytes are, the most significant first.
proof fn lemma_big_endian(bytes: Seq<u8>)
    ensures
        bytes.len() == 2 ==> big_endian(bytes) == 0x100 * bytes[0] + bytes[1],
        bytes.len() == 4 ==> big_endian(bytes) == 0x100_0000 * bytes[0] + 0x1_0000 * bytes[1]
            + 0x100 * bytes[2] + bytes[3],
        bytes.len() == 8 ==> big_endian(bytes) == 0x1_0000_0000 * (0x100_0000 * bytes[0] + 0x1_0000
            * bytes[1] + 0x100 * bytes[2] + bytes[3]) + 0x100_0000 * bytes[4] + 0x1_0000 * bytes[5]
            + 0x100 * bytes[6] + bytes[7],
{
    reveal_with_fuel(big_endian, 9);
}

/// Where the fields of a batch header stand, and what they say: a batch of version 2
/// that is there as a whole, or what is wrong with it.
pub proof fn where_the_fields_stand(buf: Seq<u8>)
    ensures
        buf.len() < 61 ==> header_of(buf) == Err::<BatchHeader, HeaderProblem>(
            HeaderProblem::Truncated,
        ),
        buf.len() >= 61 && i32_at(buf, 8) < 0 ==> header_of(buf) == Err::<
            BatchHeader,
            HeaderProblem,
        >(HeaderProblem::Malformed),
        buf.len() >= 61 && i32_at(buf, 8) >= 0 && buf.len() < 12 + i32_at(buf, 8) ==> header_of(buf)
            == Err::<BatchHeader, HeaderProblem>(HeaderProblem::Truncated),
        buf.len() >= 61 && 0 <= 12 + i32_at(buf, 8) <= buf.len() && i32_at(buf, 8) >= 0 && (buf[16]
            != 2 || i32_at(buf, 57) < 0) ==> header_of(buf) == Err::<BatchHeader, HeaderProblem>(
            HeaderProblem::Malformed,
        ),
        buf.len() >= 61 && i32_at(buf, 8) >= 0 && 12 + i32_at(buf, 8) <= buf.len() && buf[16] == 2
            && i32_at(buf, 57) >= 0 ==> (header_of(buf) matches Ok(header) && {
            &&& header.base_offset == i64_at(buf, 0)
            &&& i64::MIN <= i64_at(buf, 0) + i32_at(buf, 23) <= i64::MAX ==> header.last_offset
                == i64_at(buf, 0) + i32_at(buf, 23)
            &&& header.total_len == 12 + i32_at(buf, 8)
            &&& header.control <==> i16_at(buf, 21) & 0x20i16 != 0
            &&& header.transactional <==> i16_at(buf, 21) & 0x10i16 != 0
            &&& header.compression == codec_of((i16_at(buf, 21) & 0x07i16) as int)
            &&& header.producer_id == i64_at(buf, 43)
            &&& header.record_count == i32_at(buf, 57)
            &&& header.base_timestamp == i64_at(buf, 27)
        }),
{
}

/// A number that fits is left as it is; one past an end is that end.
pub proof fn numbers_are_held_at_the_ends(n: int)
    ensures
        i64::MIN <= n <= i64::MAX ==> saturating(n) == n,
        n > i64::MAX ==> saturating(n) == i64::MAX,
        n < i64::MIN ==> saturating(n) == i64::MIN,
{
}

/// No batch can hold more records than one for every 6 bytes: of those behind its
/// header of 61 bytes, or of those it may expand to.
pub proof fn how_many_records_are_possible(header: BatchHeader, limit: usize)
    ensures
        header.compression == Compression::Uncompressed && header.total_len >= 61 ==> {
            &&& 6 * plausible_records(header, limit) <= header.total_len - 61
            &&& header.total_len - 61 < 6 * (plausible_records(header, limit) + 1)
        },
        header.compression == Compression::Uncompressed && header.total_len < 61
            ==> plausible_records(header, limit) == 0,
        header.compression != Compression::Uncompressed ==> {
            &&& 6 * plausible_records(header, limit) <= limit
            &&& limit < 6 * (plausible_records(header, limit) + 1)
        },
{
}

/// A reader sees a record as it was written, under the topic and partition it was read
/// from; what is negative on the wire is absent.
pub proof fn a_reader_sees_what_was_written(
    topic: Seq<char>,
    partition: i32,
    record: WireRecordView,
)
    ensures
        ({
            let seen = converted(topic, partition, record);
            &&& seen.topic == topic
            &&& seen.partition == partition
            &&& seen.offset == record.offset
            &&& seen.timestamp == record.timestamp
            &&& seen.timestamp_type == record.timestamp_type
            &&& seen.key == record.key
            &&& seen.value == record.value
            &&& seen.headers == record.headers
            &&& seen.transactional == record.transactional
            &&& record.producer_id >= 0 ==> seen.producer_id == Some(record.producer_id)
            &&& record.producer_id < 0 ==> seen.producer_id is None
            &&& record.partition_leader_epoch >= 0 ==> seen.leader_epoch == Some(
                record.partition_leader_epoch,
            )
            &&& record.partition_leader_epoch < 0 ==> seen.leader_epoch is None
        }),
{
}

/// Every record of a batch that is user data is shown, in order; a marker is counted
/// instead.
pub proof fn every_record_that_is_no_marker_is_shown(
    topic: Seq<char>,
    partition: i32,
    records: Seq<WireRecordView>,
    record: WireRecordView,
)
    ensures
        record_outcomes(topic, partition, seq![]).len() == 0,
        marker_count(seq![]) == 0,
        record.control ==> {
            &&& record_outcomes(topic, partition, records.push(record)) == record_outcomes(
                topic,
                partition,
                records,
            )
            &&& marker_count(records.push(record)) == marker_count(records) + 1
        },
        !record.control ==> {
            &&& record_outcomes(topic, partition, records.push(record)) == record_outcomes(
                topic,
                partition,
                records,
            ).push(OutcomeView::Decoded(converted(topic, partition, record)))
            &&& marker_count(records.push(record)) == marker_count(records)
        },
{
    assert(records.push(record).drop_last() =~= records);
}

/// What a whole batch of user data comes to: one failure that covers all of it, with
/// its bytes, if it claims more records than it can hold, if an offset or a timestamp in
/// it does not fit, or if it does not decode; else its records.
pub proof fn what_a_batch_comes_to(
    topic: Seq<char>,
    partition: i32,
    header: BatchHeader,
    batch: Seq<u8>,
    limit: usize,
)
    ensures
        ({
            let outcomes = batch_outcomes(topic, partition, header, batch, limit);
            let sound = header.record_count <= plausible_records(header, limit) && batch_fits(
                header,
                batch,
                header.record_count,
                limit,
            );
            let read = batch_records(batch, header.record_count, limit);
            &&& sound && read is Ok ==> {
                &&& outcomes == record_outcomes(topic, partition, read->Ok_0)
                &&& batch_markers(header, batch, limit) == marker_count(read->Ok_0)
            }
            &&& !sound || read is Err ==> {
                &&& outcomes.len() == 1
                &&& outcomes[0] matches OutcomeView::Malformed { offset, last_offset, raw, reason }
                    && {
                    &&& offset == header.base_offset
                    &&& last_offset == Some(header.last_offset)
                    &&& raw == batch
                    &&& sound ==> reason == read->Err_0
                }
                &&& batch_markers(header, batch, limit) == 0
            }
        }),
{
}

/// A producer is hidden from where one of its aborted spans begins.
pub proof fn when_a_producer_is_hidden(
    hidden: Set<i64>,
    aborted: Seq<AbortedTransaction>,
    reached: int,
    base_offset: int,
    producer: i64,
)
    ensures
        hiding(hidden, aborted, reached, base_offset).contains(producer) <==> (hidden.contains(
            producer,
        ) || exists|i: int|
            0 <= i < aborted.len() && (#[trigger] aborted[i]).producer_id == producer && reached
                < aborted[i].first_offset <= base_offset),
        further(reached, base_offset) >= reached,
        further(reached, base_offset) >= base_offset,
        further(reached, base_offset) == reached || further(reached, base_offset) == base_offset,
{
}

/// What a walk makes of the batch it stands at. A marker is counted and ends its
/// producer's aborted span; a batch of a transaction that was aborted is counted by its
/// offsets; any other is shown, before what comes after it. The walk goes on behind it.
pub proof fn what_a_walk_makes_of_a_batch(
    topic: Seq<char>,
    partition: i32,
    buf: Seq<u8>,
    aborted: Seq<AbortedTransaction>,
    limit: usize,
    reached: int,
    hidden: Set<i64>,
)
    requires
        header_of(buf) is Ok,
        header_of(buf)->Ok_0.total_len > 0,
    ensures
        ({
            let header = header_of(buf)->Ok_0;
            let batch = buf.take(header.total_len as int);
            let rest = buf.skip(header.total_len as int);
            let now_hidden = hiding(hidden, aborted, reached, header.base_offset as int);
            let now_reached = further(reached, header.base_offset as int);
            let aborted_batch = header.transactional && now_hidden.contains(header.producer_id);
            let whole = walked(topic, partition, buf, aborted, limit, reached, hidden);
            let after = walked(
                topic,
                partition,
                rest,
                aborted,
                limit,
                now_reached,
                if header.control {
                    now_hidden.remove(header.producer_id)
                } else {
                    now_hidden
                },
            );
            let span = header.last_offset - header.base_offset + 1;
            &&& whole.truncated_tail == after.truncated_tail
            &&& after.last_offset is Some ==> whole.last_offset == after.last_offset
            &&& after.last_offset is None ==> whole.last_offset == Some(header.last_offset)
            &&& header.control ==> {
                &&& whole.outcomes == after.outcomes
                &&& whole.control_batches_skipped == after.control_batches_skipped + 1
                &&& whole.aborted_records_skipped == after.aborted_records_skipped
            }
            &&& !header.control && aborted_batch ==> {
                &&& whole.outcomes == after.outcomes
                &&& whole.control_batches_skipped == after.control_batches_skipped
                &&& 0 < span <= i32::MAX ==> whole.aborted_records_skipped
                    == after.aborted_records_skipped + span
            }
            &&& !header.control && !aborted_batch ==> {
                &&& whole.outcomes == batch_outcomes(topic, partition, header, batch, limit)
                    + after.outcomes
                &&& whole.control_batches_skipped == after.control_batches_skipped + batch_markers(
                    header,
                    batch,
                    limit,
                )
                &&& whole.aborted_records_skipped == after.aborted_records_skipped
            }
        }),
{
}

/// Where a walk ends: at the end of the bytes, quietly; at a batch that was cut off,
/// which is noted; and at bytes that are no batch, which are a failure of their own.
pub proof fn where_a_walk_ends(
    topic: Seq<char>,
    partition: i32,
    buf: Seq<u8>,
    aborted: Seq<AbortedTransaction>,
    limit: usize,
    reached: int,
    hidden: Set<i64>,
)
    ensures
        ({
            let end = walked(topic, partition, buf, aborted, limit, reached, hidden);
            &&& buf.len() == 0 ==> end.outcomes.len() == 0 && !end.truncated_tail
                && end.last_offset is None && end.control_batches_skipped == 0
                && end.aborted_records_skipped == 0
            &&& buf.len() > 0 && header_of(buf) == Err::<BatchHeader, HeaderProblem>(
                HeaderProblem::Truncated,
            ) ==> end.outcomes.len() == 0 && end.truncated_tail && end.last_offset is None
                && end.control_batches_skipped == 0 && end.aborted_records_skipped == 0
            &&& buf.len() > 0 && header_of(buf) == Err::<BatchHeader, HeaderProblem>(
                HeaderProblem::Malformed,
            ) ==> {
                &&& end.outcomes.len() == 1
                &&& end.outcomes[0] matches OutcomeView::Malformed { offset, last_offset, raw, .. }
                    && offset == i64_at(buf, 0) && last_offset is None && raw == buf
                &&& !end.truncated_tail
                &&& end.last_offset == Some(i64_at(buf, 0))
            }
        }),
{
}

/// A batch by itself is shown unless it is a marker, or was written in a transaction
/// that was aborted and only what is committed is read.
pub proof fn a_batch_is_shown_unless_it_was_aborted(
    topic: Seq<char>,
    partition: i32,
    buf: Seq<u8>,
    aborted: Seq<AbortedTransaction>,
    options: DecodeOptions,
)
    requires
        header_of(buf) matches Ok(header) && header.total_len == buf.len() && buf.len() > 0,
    ensures
        ({
            let header = header_of(buf)->Ok_0;
            let whole = decoded(topic, partition, buf, aborted, options);
            let was_aborted = exists|i: int|
                0 <= i < aborted.len() && (#[trigger] aborted[i]).producer_id == header.producer_id
                    && aborted[i].first_offset <= header.base_offset;
            let hides = header.control || (options.visibility == Visibility::CommittedOnly
                && header.transactional && was_aborted);
            &&& hides ==> whole.outcomes.len() == 0
            &&& !hides ==> whole.outcomes == batch_outcomes(
                topic,
                partition,
                header,
                buf,
                options.max_decompressed_bytes,
            )
            &&& whole.last_offset == Some(header.last_offset)
            &&& !whole.truncated_tail
        }),
{
    let header = header_of(buf)->Ok_0;
    let limit = options.max_decompressed_bytes;
    let rest = buf.skip(header.total_len as int);
    assert(rest =~= seq![]);
    assert(buf.take(header.total_len as int) =~= buf);
    let by = match options.visibility {
        Visibility::All => seq![],
        Visibility::CommittedOnly => aborted,
    };
    what_a_walk_makes_of_a_batch(
        topic,
        partition,
        buf,
        by,
        limit,
        i64::MIN - 1,
        Set::empty(),
    );
    when_a_producer_is_hidden(
        Set::empty(),
        by,
        i64::MIN - 1,
        header.base_offset as int,
        header.producer_id,
    );
    let shown = batch_outcomes(topic, partition, header, buf, limit);
    assert(shown + seq![] =~= shown);
}

/// The offsets a batch spans, counted.
pub proof fn how_many_offsets_a_batch_spans(header: BatchHeader)
    ensures
        0 <= header.last_offset - header.base_offset < i32::MAX ==> offset_span(header)
            == header.last_offset - header.base_offset + 1,
        header.last_offset < header.base_offset - 1 ==> offset_span(header) == 0,
{
}

/// Steps are written with their sign last: 0, -1, 1, -2 and so on.
pub proof fn signs_alternate(n: nat)
    ensures
        unzigzag(2 * n) == n,
        unzigzag(2 * n + 1) == -n - 1,
{
}

/// A step of one byte is below 128; a byte of 128 or more is followed by another that
/// counts 128 times as much, up to five.
pub proof fn steps_are_written_seven_bits_a_byte(bytes: Seq<u8>, nth: nat)
    requires
        nth < 5,
    ensures
        bytes.len() == 0 ==> varint(bytes, nth) is None,
        bytes.len() > 0 && bytes[0] < 128 ==> varint(bytes, nth) == Some((bytes[0] as nat, 1nat)),
        bytes.len() > 0 && bytes[0] >= 128 ==> match varint(bytes.skip(1), nth + 1) {
            Some(rest) => varint(bytes, nth) == Some(
                ((bytes[0] - 128) as nat + 128 * rest.0, rest.1 + 1),
            ),
            None => varint(bytes, nth) is None,
        },
        varint(bytes, 5) == Some((0nat, 0nat)),
        match varint(bytes, 0) {
            Some(read) => step_at(bytes) == Some((unzigzag(read.0 % 0x1_0000_0000), read.1)),
            None => step_at(bytes) is None,
        },
{
}

/// A record fits while its offset and its timestamp, each a step from its batch's, are
/// numbers of 64 bits: the timestamp's step stands behind the record's first byte, and
/// the offset's behind that.
pub proof fn when_a_record_fits(record: Seq<u8>, base_offset: i64, base_timestamp: i64)
    ensures
        record.len() > 0 ==> (step_at(record.skip(1)) matches Some((timestamp, len)) ==> {
            let fits = i64::MIN <= base_timestamp + timestamp <= i64::MAX;
            &&& !fits ==> !record_fits(record, base_offset, base_timestamp)
            &&& step_at(record.skip(1 + len as int)) matches Some((offset, _)) ==> (record_fits(
                record,
                base_offset,
                base_timestamp,
            ) <==> fits && i64::MIN <= base_offset + offset <= i64::MAX)
        }),
{
}

/// A payload fits while each record in it does, one behind another, each behind its
/// size.
pub proof fn when_a_payload_fits(
    payload: Seq<u8>,
    count: nat,
    base_offset: i64,
    base_timestamp: i64,
)
    requires
        count > 0,
    ensures
        step_at(payload) matches Some((size, len)) ==> (0 <= size && len + size <= payload.len()
            ==> (payload_fits(payload, count, base_offset, base_timestamp) <==> record_fits(
            payload.subrange(len as int, len + size),
            base_offset,
            base_timestamp,
        ) && payload_fits(
            payload.skip(len + size),
            (count - 1) as nat,
            base_offset,
            base_timestamp,
        ))),
        payload_fits(payload, 0, base_offset, base_timestamp),
{
}

/// Far from the ends no step leads out.
pub proof fn far_from_the_ends_no_step_leads_out(header: BatchHeader, step: i32)
    requires
        far_from_the_ends(header),
    ensures
        i64::MIN <= header.base_offset + step <= i64::MAX,
        i64::MIN <= header.base_timestamp + step <= i64::MAX,
{
}

} // verus!
