//! Deciding which partition a record goes to.

use vstd::prelude::*;
use vstd::string::*;
use crate::error::{broker_error, invalid_request, Error, ErrorCode, ErrorView};
use crate::produce::partition::{clamped, key_partition, Partitioner};
use crate::produce::record::ProducerRecord;
use crate::text::{joined, signed};


verus! {

/// How many partitions a topic has, from the number its metadata lists, or why
/// that cannot be said.
pub fn partition_count(topic: &str, listed: Option<usize>) -> (count: Result<i32, Error>)
    ensures
        match count {
            Ok(count) => listed matches Some(listed) && listed <= i32::MAX && count == listed,
            Err(error) => match listed {
                None => error@ == broker_error(
                    ErrorCode::UnknownTopicOrPartition,
                    Some(topic@),
                ),
                Some(listed) => listed > i32::MAX && error@ == invalid_request(
                    topic@ + ": implausible partition count"@,
                ),
            },
        },
{
    match listed {
        None => Err(
            Error::from_code(ErrorCode::UnknownTopicOrPartition, Some(topic.to_owned())),
        ),
        Some(listed) => {
            if listed > i32::MAX as usize {
                return Err(
                    Error::invalid_request(joined(topic, ": implausible partition count")),
                );
            }
            Ok(listed as i32)
        },
    }
}

/// What is said of a partition that does not exist.
pub open spec fn no_such_partition(topic: Seq<char>, explicit: i32, count: i32) -> ErrorView {
    invalid_request(
        topic + ": partition "@ + crate::text::signed_of(explicit as int)
            + " does not exist; the topic has "@ + crate::text::signed_of(count as int),
    )
}

/// Which partition a record belongs to: the one it names, if that exists, or
/// the partitioner's choice.
pub fn resolve_partition(partitioner: &mut Partitioner, record: &ProducerRecord, partition_count: i32) -> (resolved:
    Result<i32, Error>)
    requires
        old(partitioner).wf(),
    ensures
        final(partitioner).wf(),
        match record.partition {
            Some(explicit) => final(partitioner)@ == old(partitioner)@ && match resolved {
                Ok(partition) => partition == explicit && 0 <= explicit < partition_count,
                Err(error) => !(0 <= explicit < partition_count) && error@ == no_such_partition(
                    record@.topic,
                    explicit,
                    partition_count,
                ),
            },
            None => if partition_count <= 0 {
                resolved matches Err(error) && error@ == invalid_request(
                    record@.topic + ": topic has no partitions"@,
                ) && final(partitioner)@ == old(partitioner)@
            } else {
                match record@.key {
                    Some(key) => resolved matches Ok(partition) && partition == key_partition(
                        key,
                        partition_count,
                    ) && final(partitioner)@ == old(partitioner)@,
                    None => resolved matches Ok(partition) && 0 <= partition < partition_count
                        && final(partitioner)@ == old(partitioner)@.insert(
                        record@.topic,
                        partition,
                    ) && (old(partitioner)@.contains_key(record@.topic) ==> partition == clamped(
                        old(partitioner)@[record@.topic],
                        partition_count,
                    )),
                }
            },
        },
{
    match record.partition {
        Some(explicit) => {
            if explicit < 0 || explicit >= partition_count {
                let mut text = joined(record.topic.as_str(), ": partition ");
                text.append(signed(explicit as i64).as_str());
                text.append(" does not exist; the topic has ");
                text.append(signed(partition_count as i64).as_str());
                return Err(Error::invalid_request(text));
            }
            Ok(explicit)
        },
        None => {
            let key: Option<&[u8]> = match &record.key {
                Some(key) => Some(key.as_slice()),
                None => None,
            };
            match partitioner.assign(record.topic.as_str(), key, partition_count) {
                Some(partition) => Ok(partition),
                None => Err(
                    Error::invalid_request(
                        joined(record.topic.as_str(), ": topic has no partitions"),
                    ),
                ),
            }
        },
    }
}

} // verus!
