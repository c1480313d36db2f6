//! What the plain forms of values say: what the values hold, field by field and place by
//! place.

use vstd::prelude::*;

use crate::error::{Error, ErrorKind, ErrorKindView};
use crate::produce::accumulator::{resolution_views, Resolution};
use crate::produce::dispatch::{
    answer_views, routed_view, topic_data_view, Answer, Attempt, AttemptView, Resolved,
    RoundResult, Routed, TopicData,
};
use crate::produce::encode::encode_view;
use crate::produce::record::{producer_views, ProducerRecord};
use crate::produce::transactions::key_views;
use crate::read::backward::record_views;
use crate::read::batch::{DecodedPartition, DecodedView};
use crate::read::decompress::{decompress_view, DecompressError};
use crate::read::fetch::{fetched_views, FetchedPartition};
use crate::read::record::{outcome_views, OutcomeView, Record, RecordOutcome};
use crate::read::scan::{event_views, EventView, PartitionCursor, ScanEvent};
use crate::read::scan_state::event_of;
use crate::wire::{bytes_of, headers_of};

verus! {

/// Bytes that may be missing are the bytes, or missing; and headers are their names and
/// values, in order.
pub proof fn bytes_and_headers_are_themselves(
    bytes: Option<Vec<u8>>,
    headers: Seq<(String, Option<Vec<u8>>)>,
)
    ensures
        bytes matches Some(own) ==> bytes_of(bytes) == Some(own@),
        bytes is None ==> bytes_of(bytes) is None,
        headers_of(headers).len() == headers.len(),
        forall|i: int|
            0 <= i < headers.len() ==> (#[trigger] headers_of(headers)[i]).0 == headers[i].0@
                && headers_of(headers)[i].1 == bytes_of(headers[i].1),
{
}

/// A record's plain form holds what the record does.
pub proof fn a_record_is_itself(record: Record)
    ensures
        record@.topic == record.topic@,
        record@.partition == record.partition,
        record@.offset == record.offset,
        record@.timestamp == record.timestamp,
        record@.timestamp_type == record.timestamp_type,
        record.key matches Some(key) ==> record@.key == Some(key@),
        record.key is None ==> record@.key is None,
        record.value matches Some(value) ==> record@.value == Some(value@),
        record.value is None ==> record@.value is None,
        record@.headers == headers_of(record.headers@),
        record@.producer_id == record.producer_id,
        record@.transactional == record.transactional,
        record@.leader_epoch == record.leader_epoch,
{
}

/// So does that of a record to be sent.
pub proof fn a_record_to_be_sent_is_itself(record: ProducerRecord)
    ensures
        record@.topic == record.topic@,
        record@.partition == record.partition,
        record.key matches Some(key) ==> record@.key == Some(key@),
        record.key is None ==> record@.key is None,
        record.value matches Some(value) ==> record@.value == Some(value@),
        record.value is None ==> record@.value is None,
        record@.headers == headers_of(record.headers@),
        record@.timestamp == record.timestamp,
{
}

/// So does that of an outcome, and of an event.
pub proof fn outcomes_and_events_are_themselves(outcome: RecordOutcome, event: ScanEvent)
    ensures
        outcome matches RecordOutcome::Decoded(record) ==> outcome@ == OutcomeView::Decoded(
            record@,
        ),
        outcome matches RecordOutcome::Malformed { offset, last_offset, raw, reason } ==> outcome@
            == (OutcomeView::Malformed { offset, last_offset, raw: raw@, reason: reason.reason@ }),
        event matches ScanEvent::PartitionStarted { partition, start_offset, substituted } ==> event@
            == (EventView::PartitionStarted { partition, start_offset, substituted }),
        event matches ScanEvent::Record(record) ==> event@ == EventView::Record(record@),
        event matches ScanEvent::Malformed { topic, partition, offset, last_offset, raw, reason }
            ==> event@ == (EventView::Malformed {
            topic: topic@,
            partition,
            offset,
            last_offset,
            raw: raw@,
            reason: reason.reason@,
        }),
        event matches ScanEvent::Progress(progress) ==> event@ == EventView::Progress(progress),
        event matches ScanEvent::PartitionComplete { partition, last_offset } ==> event@ == (
        EventView::PartitionComplete { partition, last_offset }),
        event matches ScanEvent::Done(progress) ==> event@ == EventView::Done(progress),
{
}

/// So does that of a cursor.
pub proof fn a_cursor_is_itself(cursor: PartitionCursor)
    ensures
        cursor@.partition == cursor.partition,
        cursor@.leader == cursor.leader,
        cursor@.next_offset == cursor.next_offset,
        cursor@.end_offset == cursor.end_offset,
        cursor@.start_offset == cursor.start_offset,
        cursor@.substituted == cursor.substituted,
        cursor@.buffered == outcome_views(cursor.buffered@),
        cursor@.finished == cursor.finished,
{
}

/// So does that of an error.
pub proof fn an_error_is_itself(error: Error)
    ensures
        error@.retriable == error.retriable,
        error@.needs_metadata_refresh == error.needs_metadata_refresh,
        error.kind matches ErrorKind::Broker { code, context } ==> error@.kind == (
        ErrorKindView::Broker {
            code,
            context: match context {
                Some(context) => Some(context@),
                None => None,
            },
        }),
        error.kind matches ErrorKind::InvalidRequest(text) ==> error@.kind
            == ErrorKindView::InvalidRequest(text@),
        error.kind matches ErrorKind::ConnectionClosed { peer } ==> error@.kind == (
        ErrorKindView::ConnectionClosed { peer: peer@ }),
        error.kind is Timeout ==> error@.kind is Timeout,
        error.kind matches ErrorKind::Unsupported(text) ==> error@.kind
            == ErrorKindView::Unsupported(text@),
{
}

/// So does that of what a caller is told of a record.
pub proof fn a_resolution_is_itself(resolution: Resolution)
    ensures
        resolution@.ticket == resolution.ticket,
        resolution.outcome is Ok <==> resolution@.outcome is Ok,
        resolution.outcome matches Ok(metadata) ==> {
            &&& resolution@.outcome->Ok_0.topic == metadata.topic@
            &&& resolution@.outcome->Ok_0.partition == metadata.partition
            &&& resolution@.outcome->Ok_0.offset == metadata.offset
            &&& resolution@.outcome->Ok_0.timestamp == metadata.timestamp
        },
        resolution.outcome matches Err(error) ==> resolution@.outcome->Err_0 == error@,
{
}

/// So do those of a broker's answers, and of what they come to.
pub proof fn answers_are_themselves(
    answer: Answer,
    fetched: FetchedPartition,
    result: RoundResult,
    resolved: Resolved,
)
    ensures
        answer@.topic == match answer.topic {
            Some(topic) => Some(topic@),
            None => None,
        },
        answer@.partition == answer.partition,
        answer@.error_code == answer.error_code,
        answer@.error_message == match answer.error_message {
            Some(message) => Some(message@),
            None => None,
        },
        answer@.base_offset == answer.base_offset,
        answer@.log_append_time_ms == answer.log_append_time_ms,
        fetched@.partition == fetched.partition,
        fetched@.records == fetched.records@,
        fetched@.high_watermark == fetched.high_watermark,
        fetched@.last_stable_offset == fetched.last_stable_offset,
        fetched@.log_start_offset == fetched.log_start_offset,
        fetched@.aborted == fetched.aborted@,
        result@.key == (result.topic@, result.partition),
        result.outcome matches Ok(ack) ==> result@.outcome is Ok && result@.outcome->Ok_0 == ack,
        result.outcome matches Err(Attempt::Rejected(error)) ==> result@.outcome is Err
            && result@.outcome->Err_0 == AttemptView::Rejected(error@),
        result.outcome matches Err(Attempt::Ambiguous(error)) ==> result@.outcome is Err
            && result@.outcome->Err_0 == AttemptView::Ambiguous(error@),
        result.outbound matches Some(outbound) ==> result@.outbound == Some(outbound@),
        result.outbound is None ==> result@.outbound is None,
        resolved@.key == (resolved.topic@, resolved.partition),
        resolved.outcome matches Ok(ack) ==> resolved@.outcome is Ok && resolved@.outcome->Ok_0
            == ack,
        resolved.outcome matches Err(error) ==> resolved@.outcome is Err
            && resolved@.outcome->Err_0 == error@,
{
}

/// Lists are taken place by place.
pub proof fn lists_are_taken_place_by_place(
    records: Seq<Record>,
    outcomes: Seq<RecordOutcome>,
    events: Seq<ScanEvent>,
    to_be_sent: Seq<ProducerRecord>,
    resolutions: Seq<Resolution>,
    fetched: Seq<FetchedPartition>,
    answers: Seq<Answer>,
    keys: Seq<(String, i32)>,
    i: int,
)
    ensures
        record_views(records).len() == records.len(),
        0 <= i < records.len() ==> record_views(records)[i] == records[i]@,
        outcome_views(outcomes).len() == outcomes.len(),
        0 <= i < outcomes.len() ==> outcome_views(outcomes)[i] == outcomes[i]@,
        event_views(events).len() == events.len(),
        0 <= i < events.len() ==> event_views(events)[i] == events[i]@,
        producer_views(to_be_sent).len() == to_be_sent.len(),
        0 <= i < to_be_sent.len() ==> producer_views(to_be_sent)[i] == to_be_sent[i]@,
        resolution_views(resolutions).len() == resolutions.len(),
        0 <= i < resolutions.len() ==> resolution_views(resolutions)[i] == resolutions[i]@,
        fetched_views(fetched).len() == fetched.len(),
        0 <= i < fetched.len() ==> fetched_views(fetched)[i] == fetched[i]@,
        answer_views(answers).len() == answers.len(),
        0 <= i < answers.len() ==> answer_views(answers)[i] == answers[i]@,
        key_views(keys).len() == keys.len(),
        0 <= i < keys.len() ==> key_views(keys)[i] == (keys[i].0@, keys[i].1),
{
}

/// A decoded partition is what a plain form describes when it has the same outcomes, in
/// order, the same counts as far as the machine can count, and the same end.
pub proof fn what_a_decoded_partition_is(partition: DecodedPartition, plain: DecodedView)
    requires
        partition.is(plain),
    ensures
        partition.outcomes@.len() == plain.outcomes.len(),
        forall|i: int|
            0 <= i < plain.outcomes.len() ==> #[trigger] plain.outcomes[i]
                == partition.outcomes@[i]@,
        plain.control_batches_skipped <= usize::MAX ==> partition.control_batches_skipped
            == plain.control_batches_skipped,
        plain.aborted_records_skipped <= usize::MAX ==> partition.aborted_records_skipped
            == plain.aborted_records_skipped,
        partition.truncated_tail == plain.truncated_tail,
        partition.last_offset == plain.last_offset,
{
    assert(outcome_views(partition.outcomes@).len() == partition.outcomes@.len());
}

/// Results are the values they hold, or the errors.
pub proof fn results_are_themselves(
    encoded: Result<Vec<u8>, Error>,
    unpacked: Result<Vec<u8>, DecompressError>,
    event: Option<ScanEvent>,
    routed: Routed,
    data: TopicData,
)
    ensures
        encoded matches Ok(bytes) ==> encode_view(encoded) is Ok && encode_view(encoded)->Ok_0
            == bytes@,
        encoded matches Err(error) ==> encode_view(encoded) is Err && encode_view(encoded)->Err_0
            == error@,
        unpacked matches Ok(bytes) ==> decompress_view(unpacked) is Ok && decompress_view(
            unpacked,
        )->Ok_0 == bytes@,
        unpacked matches Err(error) ==> decompress_view(unpacked) is Err && decompress_view(
            unpacked,
        )->Err_0 == error@,
        event matches Some(own) ==> event_of(event) == Some(own@),
        event is None ==> event_of(event) is None,
        routed_view(routed).0 == routed.outbound@,
        routed.leader matches Ok(leader) ==> routed_view(routed).1 is Ok && routed_view(
            routed,
        ).1->Ok_0 == leader,
        routed.leader matches Err(error) ==> routed_view(routed).1 is Err && routed_view(
            routed,
        ).1->Err_0 == error@,
        topic_data_view(data).0 == data.topic@,
        topic_data_view(data).1.len() == data.partitions@.len(),
        forall|i: int|
            0 <= i < data.partitions@.len() ==> #[trigger] topic_data_view(data).1[i] == (
                data.partitions@[i].0,
                data.partitions@[i].1@,
            ),
{
}

} // verus!
