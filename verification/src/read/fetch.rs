//! One `Fetch` round trip: what to ask a leader, and what its answer holds.

use vstd::prelude::*;
use vstd::string::*;
use crate::error::{broker_error, code_for, invalid_request, Error, ErrorCode, ErrorView};
use crate::keyed::{grouped, lemma_group_position};
use crate::read::batch::{AbortedTransaction, Visibility};
use crate::read::offsets::{place, place_text, CONSUMER_REPLICA_ID};
use crate::text::{joined, signed, signed_of};
use crate::wire::{TopicRef, TopicRefView};

verus! {

/// The first `Fetch` version that identifies topics by id rather than name.
pub const FETCH_TOPIC_ID_VERSION: i16 = 13;

/// How a `Fetch` of a version names a topic, or why it cannot.
pub open spec fn fetch_name(topic: Seq<char>, topic_id: u128, version: i16) -> Result<
    TopicRefView,
    ErrorView,
> {
    if version < FETCH_TOPIC_ID_VERSION {
        Ok(TopicRefView::Name(topic))
    } else if topic_id == 0 {
        Err(
            invalid_request(
                topic + ": Fetch v"@ + signed_of(version as int)
                    + " identifies topics by id, and no topic id is known"@,
            ),
        )
    } else {
        Ok(TopicRefView::Id(topic_id))
    }
}

/// Names a topic the way this `Fetch` version expects.
///
/// From version 13 on the request carries a topic id and the name is not
/// encoded at all. A broker that supports ids always reports them in metadata,
/// so a zero id means a snapshot that dropped it; that is said plainly here
/// instead of sending a nil id and blaming the broker for the answer.
pub fn fetch_topic(topic: &str, topic_id: u128, version: i16) -> (name: Result<TopicRef, Error>)
    ensures
        match name {
            Ok(name) => fetch_name(topic@, topic_id, version) == Ok::<_, ErrorView>(name@),
            Err(error) => fetch_name(topic@, topic_id, version) == Err::<TopicRefView, _>(error@),
        },
{
    if version >= FETCH_TOPIC_ID_VERSION {
        if topic_id == 0 {
            let mut text = joined(topic, ": Fetch v");
            text.append(signed(version as i64).as_str());
            text.append(" identifies topics by id, and no topic id is known");
            return Err(Error::invalid_request(text));
        }
        return Ok(TopicRef::Id(topic_id));
    }
    Ok(TopicRef::Name(topic.to_owned()))
}

/// One partition to fetch.
#[derive(Debug, Clone, Copy, PartialEq, Eq, Structural)]
pub struct FetchTarget {
    /// Partition.
    pub partition: i32,
    /// Where to start reading.
    pub offset: i64,
    /// Per-partition byte budget.
    pub max_bytes: i32,
}

/// A `Fetch` request.
#[derive(Debug)]
pub struct FetchRequest {
    /// Who is asking.
    pub replica_id: i32,
    /// How long the broker may wait for data.
    pub max_wait_ms: i32,
    /// How much data ends the wait.
    pub min_bytes: i32,
    /// Whole-response byte budget.
    pub max_bytes: i32,
    /// Whether records of undecided and aborted transactions are left out.
    pub isolation_level: i8,
    /// The fetch session.
    pub session_id: i32,
    /// The epoch of that session.
    pub session_epoch: i32,
    /// The leader epoch the asker knows of.
    pub current_leader_epoch: i32,
    /// The epoch of the last record the asker has.
    pub last_fetched_epoch: i32,
    /// The log start a follower knows of.
    pub log_start_offset: i64,
    /// The topic.
    pub topic: TopicRef,
    /// Its partitions.
    pub partitions: Vec<FetchTarget>,
}

/// The isolation level that a visibility asks for.
pub open spec fn isolation_of(visibility: Visibility) -> i8 {
    match visibility {
        Visibility::All => 0,
        Visibility::CommittedOnly => 1,
    }
}

/// The request that reads some partitions of one topic from one leader, or
/// nothing when there is nothing to read.
pub fn fetch_request(
    topic: &str,
    topic_id: u128,
    version: i16,
    targets: &[FetchTarget],
    max_wait_ms: i32,
    max_bytes: i32,
    visibility: Visibility,
) -> (request: Result<Option<FetchRequest>, Error>)
    ensures
        match request {
            Ok(None) => targets@.len() == 0,
            Ok(Some(request)) => {
                &&& targets@.len() > 0
                &&& fetch_name(topic@, topic_id, version) == Ok::<_, ErrorView>(request.topic@)
                &&& request.partitions@ == targets@
                &&& request.replica_id == CONSUMER_REPLICA_ID
                &&& request.max_wait_ms == max_wait_ms
                &&& request.min_bytes == 1
                &&& request.max_bytes == max_bytes
                &&& request.isolation_level == isolation_of(visibility)
                &&& request.session_id == 0
                &&& request.session_epoch == -1
                &&& request.current_leader_epoch == -1
                &&& request.last_fetched_epoch == -1
                &&& request.log_start_offset == -1
            },
            Err(error) => targets@.len() > 0 && fetch_name(topic@, topic_id, version) == Err::<
                TopicRefView,
                _,
            >(error@),
        },
{
    if targets.len() == 0 {
        return Ok(None);
    }
    let topic = match fetch_topic(topic, topic_id, version) {
        Ok(topic) => topic,
        Err(error) => {
            return Err(error);
        },
    };
    Ok(
        Some(
            FetchRequest {
                replica_id: CONSUMER_REPLICA_ID,
                max_wait_ms,
                // One rather than zero: a fetch that returns as soon as any
                // byte is available, but not one that returns at once with
                // nothing, which would turn a scan into a spin.
                min_bytes: 1,
                max_bytes,
                isolation_level: match visibility {
                    Visibility::All => 0,
                    Visibility::CommittedOnly => 1,
                },
                // A full fetch, with no incremental session state: scans are
                // one-shot, and a session would make each depend on the last.
                session_id: 0,
                session_epoch: -1,
                current_leader_epoch: -1,
                last_fetched_epoch: -1,
                log_start_offset: -1,
                topic,
                partitions: vstd::slice::slice_to_vec(targets),
            },
        ),
    )
}

/// One partition's part of a `Fetch` answer.
#[derive(Debug)]
pub struct FetchAnswer {
    /// Partition.
    pub partition: i32,
    /// What went wrong with it, or zero.
    pub error_code: i16,
    /// The record bytes, still encoded.
    pub records: Option<Vec<u8>>,
    /// The partition's high watermark.
    pub high_watermark: i64,
    /// The last stable offset.
    pub last_stable_offset: i64,
    /// The first offset the log still holds.
    pub log_start_offset: i64,
    /// Transactions that were aborted.
    pub aborted: Option<Vec<AbortedTransaction>>,
}

/// What one partition of a fetch response contained.
#[derive(Debug)]
pub struct FetchedPartition {
    /// Partition.
    pub partition: i32,
    /// The raw record bytes, still encoded.
    pub records: Vec<u8>,
    /// The partition's high watermark.
    pub high_watermark: i64,
    /// The last stable offset, which under `read_committed` is where a
    /// consumer stops.
    pub last_stable_offset: i64,
    /// The first offset the log still holds.
    pub log_start_offset: i64,
    /// Transactions the client must filter out under `read_committed`.
    pub aborted: Vec<AbortedTransaction>,
}

/// A [`FetchedPartition`], as plain values.
pub struct FetchedView {
    pub partition: i32,
    pub records: Seq<u8>,
    pub high_watermark: i64,
    pub last_stable_offset: i64,
    pub log_start_offset: i64,
    pub aborted: Seq<AbortedTransaction>,
}

impl View for FetchedPartition {
    type V = FetchedView;

    open spec fn view(&self) -> FetchedView {
        FetchedView {
            partition: self.partition,
            records: self.records@,
            high_watermark: self.high_watermark,
            last_stable_offset: self.last_stable_offset,
            log_start_offset: self.log_start_offset,
            aborted: self.aborted@,
        }
    }
}

/// Fetched partitions, as plain values.
pub open spec fn fetched_views(fetched: Seq<FetchedPartition>) -> Seq<FetchedView> {
    fetched.map_values(|partition: FetchedPartition| partition@)
}

/// What one part of an answer holds.
pub open spec fn content(answer: FetchAnswer) -> FetchedView {
    FetchedView {
        partition: answer.partition,
        records: match answer.records {
            Some(records) => records@,
            None => seq![],
        },
        high_watermark: answer.high_watermark,
        last_stable_offset: answer.last_stable_offset,
        log_start_offset: answer.log_start_offset,
        aborted: match answer.aborted {
            Some(aborted) => aborted@,
            None => seq![],
        },
    }
}

/// The first part of an answer that failed.
pub open spec fn first_failure(topic: Seq<char>, answers: Seq<FetchAnswer>) -> Option<ErrorView>
    decreases answers.len(),
{
    if answers.len() == 0 {
        None
    } else {
        match first_failure(topic, answers.drop_last()) {
            Some(error) => Some(error),
            None => match code_for(answers.last().error_code) {
                Some(code) => Some(
                    broker_error(code, Some(place(topic, answers.last().partition))),
                ),
                None => None,
            },
        }
    }
}

/// What a whole answer holds, or what went wrong.
pub open spec fn fetched_of(topic: Seq<char>, error_code: i16, answers: Seq<FetchAnswer>) -> Result<
    Seq<FetchedView>,
    ErrorView,
> {
    match code_for(error_code) {
        Some(code) => Err(broker_error(code, None)),
        None => match first_failure(topic, answers) {
            Some(error) => Err(error),
            None => Ok(answers.map_values(|answer: FetchAnswer| content(answer))),
        },
    }
}

/// A failure among the first parts of an answer is the answer's failure.
proof fn lemma_first_failure(topic: Seq<char>, answers: Seq<FetchAnswer>, n: int)
    requires
        0 <= n <= answers.len(),
        first_failure(topic, answers.take(n)) is Some,
    ensures
        first_failure(topic, answers) == first_failure(topic, answers.take(n)),
    decreases answers.len(),
{
    if n == answers.len() {
        assert(answers.take(n) =~= answers);
    } else {
        assert(answers.drop_last().take(n) =~= answers.take(n));
        lemma_first_failure(topic, answers.drop_last(), n);
    }
}

/// Reads a `Fetch` answer.
pub fn fetch(topic: &str, error_code: i16, answers: Vec<FetchAnswer>) -> (fetched: Result<
    Vec<FetchedPartition>,
    Error,
>)
    ensures
        match fetched {
            Ok(fetched) => fetched_of(topic@, error_code, answers@) == Ok::<_, ErrorView>(
                fetched_views(fetched@),
            ),
            Err(error) => fetched_of(topic@, error_code, answers@) == Err::<Seq<FetchedView>, _>(
                error@,
            ),
        },
{
    if let Some(code) = ErrorCode::from_code(error_code) {
        return Err(Error::from_code(code, None));
    }
    let mut out: Vec<FetchedPartition> = Vec::new();
    let ghost all = answers@;
    for answer in iter: answers
        invariant
            iter.seq() == all,
            all == answers@,
            code_for(error_code) is None,
            first_failure(topic@, all.take(iter.index())) is None,
            out@.len() == iter.index(),
            forall|i: int| 0 <= i < out@.len() ==> (#[trigger] out@[i])@ == content(all[i]),
    {
        proof {
            assert(all.take(iter.index() + 1).drop_last() =~= all.take(iter.index()));
            assert(all.take(iter.index() + 1).last() == answer);
        }
        if let Some(code) = ErrorCode::from_code(answer.error_code) {
            proof {
                lemma_first_failure(topic@, all, iter.index() + 1);
            }
            return Err(Error::from_code(code, Some(place_text(topic, answer.partition))));
        }
        let records = match answer.records {
            Some(records) => records,
            None => Vec::new(),
        };
        let aborted = match answer.aborted {
            Some(aborted) => aborted,
            None => Vec::new(),
        };
        let partition = FetchedPartition {
            partition: answer.partition,
            records,
            high_watermark: answer.high_watermark,
            last_stable_offset: answer.last_stable_offset,
            log_start_offset: answer.log_start_offset,
            aborted,
        };
        assert(partition@.records =~= content(answer).records);
        assert(partition@.aborted =~= content(answer).aborted);
        out.push(partition);
    }
    proof {
        assert(all.take(all.len() as int) =~= all);
        assert(fetched_views(out@) =~= all.map_values(|answer: FetchAnswer| content(answer)));
    }
    Ok(out)
}

/// Targets by leader, as plain values.
pub open spec fn target_views(groups: Seq<(i32, Vec<FetchTarget>)>) -> Seq<(i32, Seq<FetchTarget>)> {
    groups.map_values(|group: (i32, Vec<FetchTarget>)| (group.0, group.1@))
}

/// Sorts targets by leader, so that one broker gets one request: leaders in the
/// order they first occur, and each leader's targets in theirs.
pub fn group_by_leader(targets: &Vec<(i32, FetchTarget)>) -> (groups: Vec<(i32, Vec<FetchTarget>)>)
    ensures
        target_views(groups@) == grouped(targets@),
{
    let mut groups: Vec<(i32, Vec<FetchTarget>)> = Vec::new();
    let mut i: usize = 0;
    assert(target_views(groups@) =~= grouped(targets@.take(0)));
    while i < targets.len()
        invariant
            i <= targets.len(),
            target_views(groups@) == grouped(targets@.take(i as int)),
        decreases targets.len() - i,
    {
        let ghost before = target_views(groups@);
        let (leader, target): (i32, FetchTarget) = targets[i];
        proof {
            assert(targets@.take(i + 1).drop_last() =~= targets@.take(i as int));
            assert(targets@.take(i + 1).last() == (leader, target));
            lemma_group_position(before, leader);
        }
        let mut at: usize = 0;
        while at < groups.len() && groups[at].0 != leader
            invariant
                at <= groups.len(),
                before == target_views(groups@),
                forall|k: int| 0 <= k < at ==> (#[trigger] before[k]).0 != leader,
            decreases groups.len() - at,
        {
            assert(before[at as int].0 == groups@[at as int].0);
            at += 1;
        }
        if at < groups.len() {
            assert(before[at as int].0 == leader);
            let ghost grown = before[at as int].1.push(target);
            let mut group = groups.remove(at);
            group.1.push(target);
            groups.insert(at, group);
            assert(target_views(groups@) =~= before.update(at as int, (leader, grown)));
        } else {
            let mut group: Vec<FetchTarget> = Vec::new();
            group.push(target);
            assert(group@ =~= seq![target]);
            groups.push((leader, group));
            assert(target_views(groups@) =~= before.push((leader, seq![target])));
        }
        i += 1;
    }
    assert(targets@.take(i as int) =~= targets@);
    groups
}

} // verus!
