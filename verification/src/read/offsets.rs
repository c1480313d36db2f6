//! What to ask `ListOffsets`, and what its answer means.

use vstd::prelude::*;
use vstd::string::*;

use crate::error::{broker_error, code_for, Error, ErrorCode, ErrorView};
use crate::text::{signed, signed_of};

verus! {

/// `replica_id` for a consumer rather than a follower.
pub const CONSUMER_REPLICA_ID: i32 = -1;

/// The timestamp that asks for the first offset the log still holds.
pub const EARLIEST: i64 = -2;

/// The timestamp that asks for the end of the log.
pub const LATEST: i64 = -1;

/// A `ListOffsets` request about one partition.
#[derive(Debug)]
pub struct ListRequest {
    /// Who is asking.
    pub replica_id: i32,
    /// Whether offsets past the last stable one count.
    pub isolation_level: i8,
    /// Topic.
    pub topic: String,
    /// Partition.
    pub partition: i32,
    /// The leader epoch the asker knows of.
    pub current_leader_epoch: i32,
    /// What to ask: a sentinel, or an instant in epoch milliseconds.
    pub timestamp: i64,
}

/// One partition's part of the answer.
#[derive(Debug, Clone, Copy, PartialEq, Eq, Structural)]
pub struct Listed {
    /// Partition.
    pub partition: i32,
    /// What went wrong with it, or zero.
    pub error_code: i16,
    /// The offset, or -1 when none matches.
    pub offset: i64,
}

/// What became of asking about one partition.
#[derive(Debug)]
pub enum ListVerdict {
    /// There is an answer.
    Settled(Option<i64>),
    /// The same question may be answered later.
    Reask {
        /// Why it was not answered now.
        error: Error,
        /// Whether the metadata that routed it is to be fetched anew first.
        refresh: bool,
    },
    /// There will be no answer.
    Failed(Error),
}

/// The request that asks one partition's leader for an offset.
pub fn list_request(topic: &str, partition: i32, timestamp: i64) -> (request: ListRequest)
    ensures
        request.replica_id == CONSUMER_REPLICA_ID,
        request.isolation_level == 0,
        request.topic@ == topic@,
        request.partition == partition,
        request.current_leader_epoch == -1,
        request.timestamp == timestamp,
{
    ListRequest {
        replica_id: CONSUMER_REPLICA_ID,
        isolation_level: 0,
        topic: topic.to_owned(),
        partition,
        current_leader_epoch: -1,
        timestamp,
    }
}

/// A topic and a partition, as error texts name them.
pub open spec fn place(topic: Seq<char>, partition: i32) -> Seq<char> {
    topic + "-"@ + signed_of(partition as int)
}

/// A topic and a partition, as error texts name them.
pub fn place_text(topic: &str, partition: i32) -> (text: String)
    ensures
        text@ == place(topic@, partition),
{
    let mut text = topic.to_owned();
    text.append("-");
    text.append(signed(partition as i64).as_str());
    text
}

/// The first answer about a partition.
pub open spec fn listed_for(answers: Seq<Listed>, partition: i32) -> Option<Listed>
    decreases answers.len(),
{
    if answers.len() == 0 {
        None
    } else if answers[0].partition == partition {
        Some(answers[0])
    } else {
        listed_for(answers.skip(1), partition)
    }
}

/// What an answer says about a partition: the offset, that there is none, or
/// what went wrong.
pub open spec fn listed(topic: Seq<char>, partition: i32, answers: Seq<Listed>) -> Result<
    Option<i64>,
    ErrorView,
> {
    match listed_for(answers, partition) {
        None => Ok(None),
        Some(answer) => match code_for(answer.error_code) {
            Some(code) => Err(broker_error(code, Some(place(topic, partition)))),
            // -1 means that no offset matches, which for a timestamp past the
            // end of the log is an answer rather than a failure.
            None => Ok(
                if answer.offset >= 0 {
                    Some(answer.offset)
                } else {
                    None
                },
            ),
        },
    }
}

/// Reads the answer about one partition.
pub fn list_one_once(topic: &str, partition: i32, answers: &Vec<Listed>) -> (offset: Result<
    Option<i64>,
    Error,
>)
    ensures
        match offset {
            Ok(offset) => listed(topic@, partition, answers@) == Ok::<_, ErrorView>(offset),
            Err(error) => listed(topic@, partition, answers@) == Err::<Option<i64>, _>(error@),
        },
{
    let mut at: usize = 0;
    assert(answers@.skip(0) =~= answers@);
    while at < answers.len()
        invariant
            at <= answers.len(),
            listed_for(answers@, partition) == listed_for(answers@.skip(at as int), partition),
        decreases answers.len() - at,
    {
        let answer: Listed = answers[at];
        assert(answers@.skip(at as int)[0] == answer);
        assert(answers@.skip(at as int).skip(1) =~= answers@.skip(at + 1));
        if answer.partition == partition {
            if let Some(code) = ErrorCode::from_code(answer.error_code) {
                return Err(Error::from_code(code, Some(place_text(topic, partition))));
            }
            return Ok(
                if answer.offset >= 0 {
                    Some(answer.offset)
                } else {
                    None
                },
            );
        }
        at += 1;
    }
    Ok(None)
}

/// Decides whether a partition is asked again.
///
/// The failure comes inside a response that the transport takes for a success,
/// so no retry below this one sees it. A partition that is between leaders is
/// asked again; anything else that a retry cannot fix ends the asking.
pub fn list_one(answer: Result<Option<i64>, Error>) -> (verdict: ListVerdict)
    ensures
        match answer {
            Ok(offset) => verdict matches ListVerdict::Settled(settled) && settled == offset,
            Err(error) => if error.retriable {
                verdict matches ListVerdict::Reask { error: why, refresh } && why@ == error@
                    && refresh == error.needs_metadata_refresh
            } else {
                verdict matches ListVerdict::Failed(why) && why@ == error@
            },
        },
{
    match answer {
        Ok(offset) => ListVerdict::Settled(offset),
        Err(error) => {
            if error.retriable {
                let refresh = error.needs_metadata_refresh;
                ListVerdict::Reask { error, refresh }
            } else {
                ListVerdict::Failed(error)
            }
        },
    }
}

/// Whom to ask next: the leader that fresh metadata names, if it names one.
pub fn next_leader(current: i32, fresh: Option<i32>) -> (leader: i32)
    ensures
        leader == match fresh {
            Some(fresh) => fresh,
            None => current,
        },
{
    match fresh {
        Some(fresh) => fresh,
        None => current,
    }
}

/// The `(earliest, latest)` offsets of a partition, from its two answers.
pub open spec fn bounds_of(earliest: Option<i64>, latest: Option<i64>) -> (i64, i64) {
    let first = match earliest {
        Some(earliest) => earliest,
        None => 0,
    };
    let last = match latest {
        Some(latest) => latest,
        None => first,
    };
    (
        first,
        if last > first {
            last
        } else {
            first
        },
    )
}

/// The `(earliest, latest)` offsets of a partition, from its answers to
/// [`EARLIEST`] and [`LATEST`].
pub fn bounds(earliest: Option<i64>, latest: Option<i64>) -> (bounds: (i64, i64))
    ensures
        bounds == bounds_of(earliest, latest),
{
    let first: i64 = match earliest {
        Some(earliest) => earliest,
        None => 0,
    };
    let last: i64 = match latest {
        Some(latest) => latest,
        None => first,
    };
    (
        first,
        if last > first {
            last
        } else {
            first
        },
    )
}

/// Whatever the answers, the log does not end before it starts.
pub proof fn bounds_are_ordered(earliest: Option<i64>, latest: Option<i64>)
    ensures
        bounds_of(earliest, latest).0 <= bounds_of(earliest, latest).1,
{
}

} // verus!
