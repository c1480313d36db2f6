//! What holds of every batch that is written.

use vstd::prelude::*;

use crate::compression::Compression;
use crate::produce::encode::{
    batch_bytes, collapsed, collapsed_names_are_distinct, distinct_headers_are_kept, encoded,
    lemma_name_position, names_distinct, reads_back, stamped, stamped_batch,
};
use crate::produce::idempotence::BatchIdentity;
use crate::produce::record::ProducerRecordView;
use crate::read::batch::{decoded, DecodeOptions};
use crate::read::record::OutcomeView;
use crate::wire::{with_header, HeaderView, TimestampType, WireRecordView};

verus! {

/// A name is given to a header once at most behind a place.
pub open spec fn last_of_its_name(headers: Seq<HeaderView>, i: int) -> bool {
    forall|j: int| i < j < headers.len() ==> (#[trigger] headers[j]).0 != headers[i].0
}

/// Every header that is kept is the last of its name, and of every name one header
/// is kept.
pub proof fn the_last_header_of_a_name_is_kept(headers: Seq<HeaderView>)
    ensures
        names_distinct(collapsed(headers)),
        forall|i: int|
            0 <= i < headers.len() && #[trigger] last_of_its_name(headers, i) ==> collapsed(
                headers,
            ).contains(headers[i]),
        forall|k: int|
            0 <= k < collapsed(headers).len() ==> exists|i: int|
                0 <= i < headers.len() && headers[i] == #[trigger] collapsed(headers)[k]
                    && #[trigger] last_of_its_name(headers, i),
    decreases headers.len(),
{
    collapsed_names_are_distinct(headers);
    if headers.len() > 0 {
        let before = headers.drop_last();
        let header = headers.last();
        let kept = collapsed(before);
        let out = collapsed(headers);
        the_last_header_of_a_name_is_kept(before);
        lemma_name_position(kept, header.0);
        assert(out == with_header(kept, header));
        assert(last_of_its_name(headers, headers.len() - 1));
        assert forall|i: int|
            0 <= i < headers.len() && #[trigger] last_of_its_name(
                headers,
                i,
            ) implies out.contains(headers[i]) by {
            if i == headers.len() - 1 {
                if out.len() > kept.len() {
                    assert(out[kept.len() as int] == header);
                } else {
                    let at = crate::wire::name_position(kept, header.0)->Some_0;
                    assert(out[at] == header);
                }
            } else {
                assert(headers[headers.len() - 1].0 != headers[i].0);
                assert forall|j: int| i < j < before.len() implies (#[trigger] before[j]).0
                    != before[i].0 by {
                    assert(headers[j].0 != headers[i].0);
                }
                assert(last_of_its_name(before, i));
                let k = choose|k: int| 0 <= k < kept.len() && kept[k] == before[i];
                assert(out[k] == headers[i]);
            }
        }
        assert forall|k: int| 0 <= k < out.len() implies exists|i: int|
            0 <= i < headers.len() && headers[i] == #[trigger] out[k]
                && #[trigger] last_of_its_name(headers, i) by {
            if out[k] == header {
                assert(headers[headers.len() - 1] == out[k]);
            } else {
                assert(out[k] == kept[k]);
                assert(kept[k].0 != header.0);
                let i = choose|i: int|
                    0 <= i < before.len() && before[i] == kept[k] && #[trigger] last_of_its_name(
                        before,
                        i,
                    );
                assert(headers[i] == out[k]);
                assert forall|j: int| i < j < headers.len() implies (#[trigger] headers[j]).0
                    != headers[i].0 by {
                    if j < before.len() {
                        assert(before[j].0 != before[i].0);
                    }
                }
                assert(last_of_its_name(headers, i));
            }
        }
    }
}

/// Whether a name comes up in some headers before another does.
pub open spec fn comes_up_before(headers: Seq<HeaderView>, one: Seq<char>, other: Seq<char>) -> bool {
    exists|i: int|
        0 <= i < headers.len() && (#[trigger] headers[i]).0 == one && forall|j: int|
            0 <= j <= i ==> (#[trigger] headers[j]).0 != other
}

/// The headers that are kept stand in the order in which their names came up.
pub proof fn kept_headers_stay_in_order(headers: Seq<HeaderView>)
    ensures
        forall|a: int, b: int|
            0 <= a < b < collapsed(headers).len() ==> comes_up_before(
                headers,
                (#[trigger] collapsed(headers)[a]).0,
                (#[trigger] collapsed(headers)[b]).0,
            ),
    decreases headers.len(),
{
    if headers.len() > 0 {
        let before = headers.drop_last();
        let header = headers.last();
        let kept = collapsed(before);
        let out = collapsed(headers);
        kept_headers_stay_in_order(before);
        the_last_header_of_a_name_is_kept(before);
        lemma_name_position(kept, header.0);
        assert(out == with_header(kept, header));
        assert forall|a: int, b: int| 0 <= a < b < out.len() implies comes_up_before(
            headers,
            (#[trigger] out[a]).0,
            (#[trigger] out[b]).0,
        ) by {
            assert(out[a].0 == kept[a].0);
            if b < kept.len() {
                assert(out[b].0 == kept[b].0);
                assert(comes_up_before(before, kept[a].0, kept[b].0));
                let i = choose|i: int|
                    0 <= i < before.len() && (#[trigger] before[i]).0 == kept[a].0 && forall|j: int|
                        0 <= j <= i ==> (#[trigger] before[j]).0 != kept[b].0;
                assert(headers[i].0 == out[a].0);
                assert forall|j: int| 0 <= j <= i implies (#[trigger] headers[j]).0 != out[b].0 by {
                    assert(before[j].0 != kept[b].0);
                }
            } else {
                assert(out[b] == header);
                let k = a;
                let i = choose|i: int|
                    0 <= i < before.len() && before[i] == kept[k] && #[trigger] last_of_its_name(
                        before,
                        i,
                    );
                assert(headers[i].0 == out[a].0);
                assert forall|j: int| 0 <= j <= i implies (#[trigger] headers[j]).0
                    != header.0 by {
                    assert(before[j] == headers[j]);
                    if headers[j].0 == header.0 {
                        lemma_a_name_is_kept(before, j);
                        let at = choose|at: int|
                            0 <= at < kept.len() && (#[trigger] kept[at]).0 == before[j].0;
                        assert(kept[at].0 == header.0);
                    }
                }
            }
        }
    }
}

/// Of every name that comes up, a header is kept.
proof fn lemma_a_name_is_kept(headers: Seq<HeaderView>, j: int)
    requires
        0 <= j < headers.len(),
    ensures
        exists|at: int|
            0 <= at < collapsed(headers).len() && (#[trigger] collapsed(headers)[at]).0
                == headers[j].0,
    decreases headers.len() - j,
{
    the_last_header_of_a_name_is_kept(headers);
    if last_of_its_name(headers, j) {
        let at = choose|at: int|
            0 <= at < collapsed(headers).len() && collapsed(headers)[at] == headers[j];
        assert(collapsed(headers)[at].0 == headers[j].0);
    } else {
        let later = choose|later: int|
            j < later < headers.len() && (#[trigger] headers[later]).0 == headers[j].0;
        lemma_a_name_is_kept(headers, later);
    }
}

/// What goes onto the wire for the record at place `i` of a batch: its own key and
/// value, its own timestamp or else the batch's clock reading, its place as its
/// offset, and the number that is `i` behind the batch's first, which wraps around.
pub proof fn a_record_goes_out_as_itself(
    record: ProducerRecordView,
    i: int,
    now: i64,
    identity: Option<BatchIdentity>,
)
    requires
        0 <= i <= i32::MAX,
    ensures
        ({
            let wire = stamped(record, i, now, identity);
            let first: int = match identity {
                Some(identity) => identity.base_sequence as int,
                None => -1,
            };
            &&& wire.key == record.key
            &&& wire.value == record.value
            &&& record.timestamp matches Some(timestamp) ==> wire.timestamp == timestamp
            &&& record.timestamp is None ==> wire.timestamp == now
            &&& wire.timestamp_type == TimestampType::Creation
            &&& wire.offset == i
            &&& names_distinct(record.headers) ==> wire.headers == record.headers
            &&& wire.headers == collapsed(record.headers)
            &&& !wire.control
            &&& wire.partition_leader_epoch == -1
            &&& first + i <= i32::MAX ==> wire.sequence == first + i
            &&& first + i > i32::MAX ==> wire.sequence == first + i - 0x1_0000_0000
            &&& identity matches Some(identity) ==> {
                &&& wire.producer_id == identity.producer_id
                &&& wire.producer_epoch == identity.producer_epoch
                &&& wire.transactional == identity.transactional
            }
            &&& identity is None ==> {
                &&& wire.producer_id == -1
                &&& wire.producer_epoch == -1
                &&& !wire.transactional
            }
        }),
{
    if names_distinct(record.headers) {
        distinct_headers_are_kept(record.headers);
    }
}

/// Whether a limit has room for a batch that was written: for its records without
/// their codec, behind the 61 bytes of the header, and of a snappy batch for the
/// most that its bytes may expand to.
pub open spec fn room_for(
    records: Seq<ProducerRecordView>,
    bytes: Seq<u8>,
    compression: Compression,
    now: i64,
    identity: Option<BatchIdentity>,
    limit: usize,
) -> bool {
    if compression == Compression::Uncompressed {
        bytes.len() - 61 <= limit
    } else {
        &&& encoded(
            stamped_batch(records, now, identity),
            Compression::Uncompressed,
        ) matches Ok(plain)
        &&& plain.len() - 61 <= limit
        &&& compression == Compression::Snappy ==> bytes.len() - 61 <= limit / 68
    }
}

/// What is read of a batch is what was written: every record once, in order, each
/// with its own key, value and headers, and with its own timestamp or else the
/// clock reading the batch was written at.
pub proof fn what_is_read_is_what_was_written(
    bytes: Seq<u8>,
    records: Seq<ProducerRecordView>,
    compression: Compression,
    now: i64,
    identity: Option<BatchIdentity>,
    topic: Seq<char>,
    partition: i32,
    options: DecodeOptions,
    i: int,
)
    requires
        reads_back(bytes, records, compression, now, identity),
        room_for(records, bytes, compression, now, identity, options.max_decompressed_bytes),
        0 <= i < records.len() <= i32::MAX,
    ensures
        ({
            let outcomes = decoded(topic, partition, bytes, seq![], options).outcomes;
            &&& outcomes.len() == records.len()
            &&& outcomes[i] matches OutcomeView::Decoded(read) && {
                &&& read.topic == topic
                &&& read.partition == partition
                &&& read.offset == i
                &&& read.key == records[i].key
                &&& read.value == records[i].value
                &&& records[i].timestamp matches Some(timestamp) ==> read.timestamp == timestamp
                &&& records[i].timestamp is None ==> read.timestamp == now
                &&& read.timestamp_type == TimestampType::Creation
                &&& names_distinct(records[i].headers) ==> read.headers == records[i].headers
                &&& read.headers == collapsed(records[i].headers)
                &&& read.leader_epoch is None
                &&& identity is None ==> read.producer_id is None && !read.transactional
                &&& identity matches Some(identity) ==> {
                    &&& identity.producer_id >= 0 ==> read.producer_id == Some(
                        identity.producer_id,
                    )
                    &&& identity.producer_id < 0 ==> read.producer_id is None
                    &&& read.transactional == identity.transactional
                }
            }
        }),
{
    let outcomes = decoded(topic, partition, bytes, seq![], options).outcomes;
    a_record_goes_out_as_itself(records[i], i, now, identity);
    assert(outcomes.len() == records.len());
}

/// Records whose timestamps no i64 keeps apart are refused as a request that
/// cannot be made, and only what the encoder refuses is refused besides.
pub proof fn a_batch_is_refused_for_a_reason(records: Seq<WireRecordView>, compression: Compression)
    ensures
        (exists|i: int, j: int|
            0 <= i < records.len() && 0 <= j < records.len() && (#[trigger] records[i]).timestamp
                - (#[trigger] records[j]).timestamp > i64::MAX) ==> batch_bytes(
            records,
            compression,
        ) is Err,
        batch_bytes(records, compression) matches Ok(bytes) ==> encoded(records, compression) == Ok::<
            Seq<u8>,
            Seq<char>,
        >(bytes),
        batch_bytes(records, compression) matches Err(error) ==> {
            &&& error.kind is InvalidRequest
            &&& !error.retriable
            &&& !error.needs_metadata_refresh
            &&& encoded(records, compression) is Err || exists|i: int, j: int|
                0 <= i < records.len() && 0 <= j < records.len() && (
                #[trigger] records[i]).timestamp - (#[trigger] records[j]).timestamp > i64::MAX
        },
{
}

} // verus!
