//! One `Produce` round trip: what to send to each leader, and what its answer
//! means for each partition.
//!
//! Batches travel in groups, one batch per partition and several partitions per
//! broker, so the request count scales with broker count instead of partition
//! count.

use vstd::prelude::*;
use vstd::string::*;

use crate::error::{
    broker_error, code_for, invalid_request, text_of, Error, ErrorCode, ErrorView,
};
use crate::keyed::{
    group_by_topic, group_position, group_views, grouped, item_views, lemma_group_position,
    PartitionKey,
};
use crate::produce::config::{acks_number, ProducerConfig, RetryPolicy};
use crate::text::signed;
use crate::wire::{TopicRef, TopicRefView};

verus! {

/// The first `Produce` version that identifies topics by id rather than name.
pub const PRODUCE_TOPIC_ID_VERSION: i16 = 13;

/// One partition's encoded batch, waiting for the wire.
#[derive(Debug)]
pub struct Outbound {
    /// Topic the batch belongs to.
    pub topic: String,
    /// Partition index within that topic.
    pub partition: i32,
    /// The encoded v2 record batch.
    pub encoded: Vec<u8>,
}

/// An [`Outbound`], as plain values.
pub struct OutboundView {
    pub topic: Seq<char>,
    pub partition: i32,
    pub encoded: Seq<u8>,
}

impl View for Outbound {
    type V = OutboundView;

    open spec fn view(&self) -> OutboundView {
        OutboundView {
            topic: self.topic@,
            partition: self.partition,
            encoded: self.encoded@,
        }
    }
}

impl OutboundView {
    /// The key a batch is tracked and resolved by.
    pub open spec fn key(self) -> PartitionKey {
        (self.topic, self.partition)
    }
}

/// Batches, as plain values.
pub open spec fn outbound_views(batches: Seq<Outbound>) -> Seq<OutboundView> {
    batches.map_values(|batch: Outbound| batch@)
}

impl Outbound {
    /// The key this batch is tracked and resolved by.
    pub fn key(&self) -> (key: (String, i32))
        ensures
            (key.0@, key.1) == self@.key(),
    {
        (self.topic.clone(), self.partition)
    }
}

/// What the broker said about one partition's batch.
#[derive(Debug, Clone, Copy, PartialEq, Eq, Structural)]
pub struct Ack {
    /// Offset the batch's first record landed at.
    pub base_offset: i64,
    /// Broker-assigned append time, or `None` on a `CreateTime` topic.
    pub log_append_time_ms: Option<i64>,
}

/// Why one attempt failed, which decides whether another one is allowed.
#[derive(Debug)]
pub enum Attempt {
    /// The broker answered, and said no. Nothing was appended.
    Rejected(Error),
    /// The request was in flight and we do not know what became of it.
    Ambiguous(Error),
}

/// An [`Attempt`], as plain values.
pub enum AttemptView {
    Rejected(ErrorView),
    Ambiguous(ErrorView),
}

impl View for Attempt {
    type V = AttemptView;

    open spec fn view(&self) -> AttemptView {
        match self {
            Attempt::Rejected(error) => AttemptView::Rejected(error@),
            Attempt::Ambiguous(error) => AttemptView::Ambiguous(error@),
        }
    }
}

impl AttemptView {
    /// The failure.
    pub open spec fn error(self) -> ErrorView {
        match self {
            AttemptView::Rejected(error) => error,
            AttemptView::Ambiguous(error) => error,
        }
    }

    /// Whether another attempt is allowed.
    pub open spec fn retriable(self, attempt: u32, policy: RetryPolicy, idempotent: bool) -> bool {
        &&& self.error().retriable
        &&& attempt < policy.max_attempts
        &&& self is Ambiguous ==> idempotent
    }
}

impl Attempt {
    /// The failure.
    pub fn into_error(self) -> (error: Error)
        ensures
            error@ == self@.error(),
    {
        match self {
            Attempt::Rejected(error) => error,
            Attempt::Ambiguous(error) => error,
        }
    }

    /// Whether another attempt is allowed.
    ///
    /// A rejection may always be repeated: a response carrying an error code
    /// proves the records were never appended. An ambiguous failure may be
    /// repeated only under idempotence: the records may already be in the log,
    /// and without a producer id and sequence the broker cannot tell a re-send
    /// from a new batch.
    pub fn retriable(&self, attempt: u32, policy: &RetryPolicy, idempotent: bool) -> (retriable: bool)
        ensures
            retriable == self@.retriable(attempt, *policy, idempotent),
    {
        match self {
            Attempt::Rejected(error) => error.retriable && policy.should_retry(attempt),
            Attempt::Ambiguous(error) => idempotent && error.retriable && policy.should_retry(
                attempt,
            ),
        }
    }
}

/// Without idempotence an ambiguous failure is never repeated, at any retry
/// setting; a rejection's fate does not depend on idempotence.
pub proof fn ambiguity_is_never_retried_without_idempotence(
    failure: AttemptView,
    attempt: u32,
    policy: RetryPolicy,
)
    ensures
        failure is Ambiguous ==> !failure.retriable(attempt, policy, false),
        failure is Rejected ==> failure.retriable(attempt, policy, false) == failure.retriable(
            attempt,
            policy,
            true,
        ),
{
}

/// What one pass made of one batch. A batch that failed is handed back so it
/// can be sent again without being encoded again.
#[derive(Debug)]
pub struct RoundResult {
    /// Topic.
    pub topic: String,
    /// Partition.
    pub partition: i32,
    /// What became of it.
    pub outcome: Result<Ack, Attempt>,
    /// The batch, unless it is done with.
    pub outbound: Option<Outbound>,
}

/// A [`RoundResult`], as plain values.
pub struct RoundResultView {
    pub key: PartitionKey,
    pub outcome: Result<Ack, AttemptView>,
    pub outbound: Option<OutboundView>,
}

impl View for RoundResult {
    type V = RoundResultView;

    open spec fn view(&self) -> RoundResultView {
        RoundResultView {
            key: (self.topic@, self.partition),
            outcome: match self.outcome {
                Ok(ack) => Ok(ack),
                Err(failure) => Err(failure@),
            },
            outbound: match self.outbound {
                Some(outbound) => Some(outbound@),
                None => None,
            },
        }
    }
}

/// Results, as plain values.
pub open spec fn round_views(results: Seq<RoundResult>) -> Seq<RoundResultView> {
    results.map_values(|result: RoundResult| result@)
}

/// The result of a batch that failed.
pub open spec fn failed(outbound: OutboundView, failure: AttemptView) -> RoundResultView {
    RoundResultView { key: outbound.key(), outcome: Err(failure), outbound: Some(outbound) }
}

/// The result of a batch that failed.
fn fail(outbound: Outbound, failure: Attempt) -> (result: RoundResult)
    ensures
        result@ == failed(outbound@, failure@),
{
    RoundResult {
        topic: outbound.topic.clone(),
        partition: outbound.partition,
        outcome: Err(failure),
        outbound: Some(outbound),
    }
}

/// Where a routed batch goes: its leader, or why it has none.
#[derive(Debug)]
pub struct Routed {
    /// The batch.
    pub outbound: Outbound,
    /// Its leader.
    pub leader: Result<i32, Error>,
}

/// Batches by leader, and the results of those that could not be routed.
#[derive(Debug)]
pub struct Routes {
    /// Each leader's batches, leaders in the order they first occur.
    pub groups: Vec<(i32, Vec<Outbound>)>,
    /// The batches that have no leader: nothing was sent, so they were
    /// rejected.
    pub unrouted: Vec<RoundResult>,
}

/// A [`Routed`] batch, as plain values.
pub open spec fn routed_view(routed: Routed) -> (OutboundView, Result<i32, ErrorView>) {
    (
        routed.outbound@,
        match routed.leader {
            Ok(leader) => Ok(leader),
            Err(error) => Err(error@),
        },
    )
}

/// Routed batches, as plain values.
pub open spec fn routed_views(batches: Seq<Routed>) -> Seq<(OutboundView, Result<i32, ErrorView>)> {
    batches.map_values(|routed: Routed| routed_view(routed))
}

/// Groups, as plain values.
pub open spec fn leader_views(groups: Seq<(i32, Vec<Outbound>)>) -> Seq<(i32, Seq<OutboundView>)> {
    groups.map_values(|group: (i32, Vec<Outbound>)| (group.0, outbound_views(group.1@)))
}

/// Routed batches by leader.
pub open spec fn by_leader(batches: Seq<(OutboundView, Result<i32, ErrorView>)>) -> Seq<
    (i32, Seq<OutboundView>),
>
    decreases batches.len(),
{
    if batches.len() == 0 {
        seq![]
    } else {
        let before = by_leader(batches.drop_last());
        match batches.last().1 {
            Ok(leader) => match group_position(before, leader) {
                Some(at) => before.update(at, (leader, before[at].1.push(batches.last().0))),
                None => before.push((leader, seq![batches.last().0])),
            },
            Err(_) => before,
        }
    }
}

/// The results of the batches that have no leader.
pub open spec fn without_leader(batches: Seq<(OutboundView, Result<i32, ErrorView>)>) -> Seq<
    RoundResultView,
>
    decreases batches.len(),
{
    if batches.len() == 0 {
        seq![]
    } else {
        let before = without_leader(batches.drop_last());
        match batches.last().1 {
            Ok(_) => before,
            Err(error) => before.push(failed(batches.last().0, AttemptView::Rejected(error))),
        }
    }
}

/// Sorts batches by leader, so that one request goes to each.
pub fn round(batches: Vec<Routed>) -> (routes: Routes)
    ensures
        leader_views(routes.groups@) == by_leader(routed_views(batches@)),
        round_views(routes.unrouted@) == without_leader(routed_views(batches@)),
{
    let mut groups: Vec<(i32, Vec<Outbound>)> = Vec::new();
    let mut unrouted: Vec<RoundResult> = Vec::new();
    let ghost views = routed_views(batches@);
    assert(leader_views(groups@) =~= by_leader(views.take(0)));
    assert(round_views(unrouted@) =~= without_leader(views.take(0)));
    for routed in iter: batches
        invariant
            iter.seq() == batches@,
            views == routed_views(batches@),
            leader_views(groups@) == by_leader(views.take(iter.index())),
            round_views(unrouted@) == without_leader(views.take(iter.index())),
    {
        let ghost before = leader_views(groups@);
        let ghost rejected = round_views(unrouted@);
        let ghost view = routed_view(routed);
        proof {
            assert(views.take(iter.index() + 1).drop_last() =~= views.take(iter.index()));
            assert(views.take(iter.index() + 1).last() == view);
        }
        match routed.leader {
            Ok(leader) => {
                proof {
                    lemma_group_position(before, leader);
                }
                let mut at: usize = 0;
                while at < groups.len() && groups[at].0 != leader
                    invariant
                        at <= groups.len(),
                        before == leader_views(groups@),
                        forall|k: int| 0 <= k < at ==> (#[trigger] before[k]).0 != leader,
                    decreases groups.len() - at,
                {
                    assert(before[at as int].0 == groups@[at as int].0);
                    at += 1;
                }
                if at < groups.len() {
                    assert(before[at as int].0 == leader);
                    let ghost grown = before[at as int].1.push(view.0);
                    let mut group = groups.remove(at);
                    let ghost own = group.1@;
                    group.1.push(routed.outbound);
                    assert(outbound_views(group.1@) =~= outbound_views(own).push(view.0));
                    groups.insert(at, group);
                    assert(leader_views(groups@) =~= before.update(at as int, (leader, grown)));
                } else {
                    let mut group: Vec<Outbound> = Vec::new();
                    group.push(routed.outbound);
                    assert(outbound_views(group@) =~= seq![view.0]);
                    groups.push((leader, group));
                    assert(leader_views(groups@) =~= before.push((leader, seq![view.0])));
                }
            },
            Err(error) => {
                unrouted.push(fail(routed.outbound, Attempt::Rejected(error)));
                assert(round_views(unrouted@) =~= rejected.push(
                    failed(view.0, AttemptView::Rejected(view.1->Err_0)),
                ));
            },
        }
    }
    assert(views.take(views.len() as int) =~= views);
    Routes { groups, unrouted }
}

/// How far a request to a leader got before it failed.
#[derive(Debug, Clone, Copy, PartialEq, Eq, Structural)]
pub enum Reached {
    /// Nothing reached the wire.
    Nothing,
    /// The request was on the wire.
    Wire,
}

/// Fails every batch of a group alike. A failure before the request exists is a
/// rejection; once it is on the wire, any failure is ambiguous.
pub fn send_to(group: Vec<Outbound>, error: &Error, reached: Reached) -> (results: Vec<RoundResult>)
    ensures
        round_views(results@) == Seq::new(
            group@.len(),
            |i: int|
                failed(
                    group@[i]@,
                    match reached {
                        Reached::Nothing => AttemptView::Rejected(error@),
                        Reached::Wire => AttemptView::Ambiguous(error@),
                    },
                ),
        ),
{
    let mut results: Vec<RoundResult> = Vec::new();
    let ghost failure = match reached {
        Reached::Nothing => AttemptView::Rejected(error@),
        Reached::Wire => AttemptView::Ambiguous(error@),
    };
    for outbound in iter: group
        invariant
            iter.seq() == group@,
            failure == (match reached {
                Reached::Nothing => AttemptView::Rejected(error@),
                Reached::Wire => AttemptView::Ambiguous(error@),
            }),
            results@.len() == iter.index(),
            forall|k: int|
                0 <= k < iter.index() ==> (#[trigger] results@[k])@ == failed(group@[k]@, failure),
    {
        let own = error.duplicate();
        results.push(
            fail(
                outbound,
                match reached {
                    Reached::Nothing => Attempt::Rejected(own),
                    Reached::Wire => Attempt::Ambiguous(own),
                },
            ),
        );
    }
    assert(round_views(results@) =~= Seq::new(
        group@.len(),
        |i: int| failed(group@[i]@, failure),
    ));
    results
}

/// One topic's part of a request.
#[derive(Debug)]
pub struct TopicData {
    /// The topic.
    pub topic: TopicRef,
    /// Its partitions, each with its encoded batch.
    pub partitions: Vec<(i32, Vec<u8>)>,
}

/// A `Produce` request.
#[derive(Debug)]
pub struct ProduceRequest {
    /// Acknowledgements to wait for.
    pub acks: i16,
    /// How long the broker may wait for them.
    pub timeout_ms: i32,
    /// What to append.
    pub topics: Vec<TopicData>,
}

/// One topic's part of a request, as plain values.
pub open spec fn topic_data_view(data: TopicData) -> (TopicRefView, Seq<(i32, Seq<u8>)>) {
    (
        data.topic@,
        data.partitions@.map_values(|partition: (i32, Vec<u8>)| (partition.0, partition.1@)),
    )
}

/// The batches of a group by topic, each topic's as their places in the group.
pub open spec fn places(group: Seq<OutboundView>) -> Seq<(Seq<char>, usize)> {
    Seq::new(group.len(), |i: int| (group[i].topic, i as usize))
}

/// The id a topic is known by: the first one listed for it.
pub open spec fn known_id(ids: Seq<(Seq<char>, u128)>, topic: Seq<char>) -> Option<u128>
    decreases ids.len(),
{
    if ids.len() == 0 {
        None
    } else if ids[0].0 == topic {
        Some(ids[0].1)
    } else {
        known_id(ids.skip(1), topic)
    }
}

/// How a request of a version names a topic, or why it cannot.
pub open spec fn named(topic: Seq<char>, version: i16, ids: Seq<(Seq<char>, u128)>) -> Result<
    TopicRefView,
    ErrorView,
> {
    if version < PRODUCE_TOPIC_ID_VERSION {
        Ok(TopicRefView::Name(topic))
    } else {
        match known_id(ids, topic) {
            None => Err(broker_error(ErrorCode::UnknownTopicOrPartition, Some(topic))),
            Some(id) => if id == 0 {
                Err(
                    invalid_request(
                        topic + ": Produce v"@ + crate::text::signed_of(version as int)
                            + " identifies topics by id, and no topic id is known"@,
                    ),
                )
            } else {
                Ok(TopicRefView::Id(id))
            },
        }
    }
}

/// The first topic that cannot be named.
pub open spec fn first_unnamed(
    groups: Seq<(Seq<char>, Seq<usize>)>,
    version: i16,
    ids: Seq<(Seq<char>, u128)>,
) -> Option<ErrorView>
    decreases groups.len(),
{
    if groups.len() == 0 {
        None
    } else {
        match named(groups[0].0, version, ids) {
            Err(error) => Some(error),
            Ok(_) => first_unnamed(groups.skip(1), version, ids),
        }
    }
}

/// One topic's part of a request.
pub open spec fn topic_part(
    group: Seq<OutboundView>,
    topic: (Seq<char>, Seq<usize>),
    version: i16,
    ids: Seq<(Seq<char>, u128)>,
) -> (TopicRefView, Seq<(i32, Seq<u8>)>) {
    (
        named(topic.0, version, ids)->Ok_0,
        topic.1.map_values(
            |at: usize| (group[at as int].partition, group[at as int].encoded),
        ),
    )
}

/// Looks a topic's id up.
fn topic_id(topic: &String, ids: &Vec<(String, u128)>) -> (id: Option<u128>)
    ensures
        id == known_id(item_views(ids@), topic@),
{
    let ghost views = item_views(ids@);
    let mut at: usize = 0;
    assert(views.skip(0) =~= views);
    while at < ids.len()
        invariant
            at <= ids.len(),
            views == item_views(ids@),
            known_id(views, topic@) == known_id(views.skip(at as int), topic@),
        decreases ids.len() - at,
    {
        assert(views.skip(at as int)[0] == views[at as int]);
        if ids[at].0 == *topic {
            return Some(ids[at].1);
        }
        assert(views.skip(at as int).skip(1) =~= views.skip(at + 1));
        at += 1;
    }
    None
}

/// Says how a request of a version names a topic.
fn name_topic(topic: &String, version: i16, ids: &Vec<(String, u128)>) -> (name: Result<
    TopicRef,
    Error,
>)
    ensures
        match name {
            Ok(name) => named(topic@, version, item_views(ids@)) == Ok::<TopicRefView, ErrorView>(
                name@,
            ),
            Err(error) => named(topic@, version, item_views(ids@)) == Err::<
                TopicRefView,
                ErrorView,
            >(error@),
        },
{
    if version < PRODUCE_TOPIC_ID_VERSION {
        return Ok(TopicRef::Name(topic.clone()));
    }
    match topic_id(topic, ids) {
        None => Err(
            Error::from_code(ErrorCode::UnknownTopicOrPartition, Some(topic.clone())),
        ),
        Some(id) => {
            if id == 0 {
                let mut text = topic.clone();
                text.append(": Produce v");
                text.append(signed(version as i64).as_str());
                text.append(" identifies topics by id, and no topic id is known");
                return Err(Error::invalid_request(text));
            }
            Ok(TopicRef::Id(id))
        },
    }
}

/// The partitions of one topic's part of a request.
fn partition_data(group: &Vec<Outbound>, at: &Vec<usize>) -> (partitions: Vec<(i32, Vec<u8>)>)
    requires
        forall|k: int| 0 <= k < at@.len() ==> (#[trigger] at@[k]) < group@.len(),
    ensures
        partitions@.map_values(|partition: (i32, Vec<u8>)| (partition.0, partition.1@))
            == at@.map_values(
            |at: usize|
                (outbound_views(group@)[at as int].partition, outbound_views(
                    group@,
                )[at as int].encoded),
        ),
{
    let mut partitions: Vec<(i32, Vec<u8>)> = Vec::new();
    let mut k: usize = 0;
    while k < at.len()
        invariant
            k <= at.len(),
            partitions@.len() == k,
            forall|j: int| 0 <= j < at@.len() ==> (#[trigger] at@[j]) < group@.len(),
            forall|j: int|
                0 <= j < k ==> (#[trigger] partitions@[j]).0 == group@[at@[j] as int].partition
                    && partitions@[j].1@ == group@[at@[j] as int].encoded@,
        decreases at.len() - k,
    {
        let encoded = group[at[k]].encoded.clone();
        assert(encoded@ =~= group@[at@[k as int] as int].encoded@);
        partitions.push((group[at[k]].partition, encoded));
        k += 1;
    }
    assert(partitions@.map_values(|partition: (i32, Vec<u8>)| (partition.0, partition.1@))
        =~= at@.map_values(
        |at: usize|
            (outbound_views(group@)[at as int].partition, outbound_views(
                group@,
            )[at as int].encoded),
    ));
    partitions
}

/// Grouped places are places of the group.
proof fn lemma_places_are_in_range(items: Seq<(Seq<char>, usize)>, bound: usize)
    requires
        forall|i: int| 0 <= i < items.len() ==> (#[trigger] items[i]).1 < bound,
    ensures
        forall|i: int, k: int|
            0 <= i < grouped(items).len() && 0 <= k < grouped(items)[i].1.len() ==> (
            #[trigger] grouped(items)[i].1[k]) < bound,
    decreases items.len(),
{
    if items.len() > 0 {
        let shorter = items.drop_last();
        assert forall|i: int| 0 <= i < shorter.len() implies (#[trigger] shorter[i]).1 < bound by {
            assert(shorter[i] == items[i]);
        }
        lemma_places_are_in_range(shorter, bound);
        lemma_group_position(grouped(shorter), items.last().0);
        assert(items[items.len() - 1].1 < bound);
        let before = grouped(shorter);
        let after = grouped(items);
        assert forall|i: int, k: int|
            0 <= i < after.len() && 0 <= k < after[i].1.len() implies (
        #[trigger] after[i].1[k]) < bound by {
            if i < before.len() && k < before[i].1.len() {
                assert(before[i].1[k] < bound);
            }
        }
    }
}

/// Builds one request covering every batch in a group.
///
/// Exactly the field this version has is set: topics are named up to
/// [`PRODUCE_TOPIC_ID_VERSION`] and identified by id from there on.
pub fn build_request(
    group: &Vec<Outbound>,
    version: i16,
    ids: &Vec<(String, u128)>,
    config: &ProducerConfig,
) -> (request: Result<ProduceRequest, Error>)
    ensures
        ({
            let groups = grouped(places(outbound_views(group@)));
            let id_views = item_views(ids@);
            match request {
                Ok(request) => {
                    &&& first_unnamed(groups, version, id_views) is None
                    &&& request.acks == acks_number(config.acks)
                    &&& request.timeout_ms == if config.delivery_timeout > i32::MAX {
                        i32::MAX as int
                    } else {
                        config.delivery_timeout as int
                    }
                    &&& request.topics@.len() == groups.len()
                    &&& forall|i: int|
                        0 <= i < groups.len() ==> topic_data_view(#[trigger] request.topics@[i])
                            == topic_part(outbound_views(group@), groups[i], version, id_views)
                },
                Err(error) => first_unnamed(groups, version, id_views) == Some(error@),
            }
        }),
{
    let mut items: Vec<(String, usize)> = Vec::new();
    let mut i: usize = 0;
    while i < group.len()
        invariant
            i <= group.len(),
            items@.len() == i,
            forall|k: int|
                0 <= k < i ==> (#[trigger] items@[k]).0@ == group@[k].topic@ && items@[k].1 == k,
        decreases group.len() - i,
    {
        items.push((group[i].topic.clone(), i));
        i += 1;
    }
    let ghost views = outbound_views(group@);
    let ghost id_views = item_views(ids@);
    assert(item_views(items@) =~= places(views));
    let by_topic = group_by_topic(&items);
    let ghost groups = grouped(places(views));
    proof {
        lemma_places_are_in_range(places(views), group@.len() as usize);
        assert(groups.skip(0) =~= groups);
    }
    let mut topics: Vec<TopicData> = Vec::new();
    let mut at: usize = 0;
    while at < by_topic.len()
        invariant
            at <= by_topic.len(),
            views == outbound_views(group@),
            id_views == item_views(ids@),
            groups == grouped(places(views)),
            groups == group_views(by_topic@),
            topics@.len() == at,
            first_unnamed(groups, version, id_views) == first_unnamed(
                groups.skip(at as int),
                version,
                id_views,
            ),
            forall|i: int, k: int|
                0 <= i < groups.len() && 0 <= k < groups[i].1.len() ==> (#[trigger] groups[i].1[k])
                    < group@.len(),
            forall|k: int|
                0 <= k < at ==> topic_data_view(#[trigger] topics@[k]) == topic_part(
                    views,
                    groups[k],
                    version,
                    id_views,
                ),
        decreases by_topic.len() - at,
    {
        let ghost here = groups[at as int];
        assert(groups.skip(at as int)[0] == here);
        assert(groups.skip(at as int).skip(1) =~= groups.skip(at + 1));
        assert(here == (by_topic@[at as int].0@, by_topic@[at as int].1@));
        let topic = name_topic(&by_topic[at].0, version, ids)?;
        assert forall|k: int| 0 <= k < by_topic@[at as int].1@.len() implies (
        #[trigger] by_topic@[at as int].1@[k]) < group@.len() by {
            assert(groups[at as int].1[k] < group@.len());
        }
        let partitions = partition_data(group, &by_topic[at].1);
        topics.push(TopicData { topic, partitions });
        at += 1;
    }
    Ok(
        ProduceRequest {
            acks: config.acks.wire(),
            timeout_ms: config.delivery_timeout_ms(),
            topics,
        },
    )
}

/// What the broker answered for one partition.
#[derive(Debug)]
pub struct Answer {
    /// The topic, where the answer identifies it.
    pub topic: Option<String>,
    /// The partition.
    pub partition: i32,
    /// The error code, zero for success.
    pub error_code: i16,
    /// What it says about the error.
    pub error_message: Option<String>,
    /// Offset the batch's first record landed at.
    pub base_offset: i64,
    /// Append time, or -1 where the broker does not assign one.
    pub log_append_time_ms: i64,
}

/// An [`Answer`], as plain values.
pub struct AnswerView {
    pub topic: Option<Seq<char>>,
    pub partition: i32,
    pub error_code: i16,
    pub error_message: Option<Seq<char>>,
    pub base_offset: i64,
    pub log_append_time_ms: i64,
}

impl View for Answer {
    type V = AnswerView;

    open spec fn view(&self) -> AnswerView {
        AnswerView {
            topic: text_of(self.topic),
            partition: self.partition,
            error_code: self.error_code,
            error_message: text_of(self.error_message),
            base_offset: self.base_offset,
            log_append_time_ms: self.log_append_time_ms,
        }
    }
}

impl AnswerView {
    /// Whether this answers for the batch.
    pub open spec fn is_for(self, outbound: OutboundView) -> bool {
        self.partition == outbound.partition && (self.topic matches Some(topic) ==> topic
            == outbound.topic)
    }
}

/// Answers, as plain values.
pub open spec fn answer_views(answers: Seq<Answer>) -> Seq<AnswerView> {
    answers.map_values(|answer: Answer| answer@)
}

/// The answer for a batch: the last one that is for it.
pub open spec fn answer_for(answers: Seq<AnswerView>, outbound: OutboundView) -> Option<AnswerView>
    decreases answers.len(),
{
    if answers.len() == 0 {
        None
    } else if answers.last().is_for(outbound) {
        Some(answers.last())
    } else {
        answer_for(answers.drop_last(), outbound)
    }
}

/// The result of a batch the broker was sent.
pub open spec fn result_for(answers: Seq<AnswerView>, outbound: OutboundView) -> RoundResultView {
    match answer_for(answers, outbound) {
        Some(answer) => match code_for(answer.error_code) {
            Some(code) => failed(
                outbound,
                AttemptView::Rejected(broker_error(code, answer.error_message)),
            ),
            None => RoundResultView {
                key: outbound.key(),
                outcome: Ok(
                    Ack {
                        base_offset: answer.base_offset,
                        log_append_time_ms: if answer.log_append_time_ms >= 0 {
                            Some(answer.log_append_time_ms)
                        } else {
                            None
                        },
                    },
                ),
                outbound: None,
            },
        },
        None => failed(
            outbound,
            AttemptView::Ambiguous(
                invalid_request(
                    outbound.topic + "-"@ + crate::text::signed_of(outbound.partition as int)
                        + ": the broker did not answer a partition we sent"@,
                ),
            ),
        ),
    }
}

/// Finds the answer for a batch.
fn find_answer(answers: &Vec<Answer>, outbound: &Outbound) -> (found: Option<usize>)
    ensures
        match found {
            Some(at) => at < answers@.len() && answer_for(answer_views(answers@), outbound@)
                == Some(answers@[at as int]@),
            None => answer_for(answer_views(answers@), outbound@) is None,
        },
{
    let ghost views = answer_views(answers@);
    let mut left: usize = answers.len();
    assert(views.take(left as int) =~= views);
    while left > 0
        invariant
            left <= answers.len(),
            views == answer_views(answers@),
            answer_for(views, outbound@) == answer_for(views.take(left as int), outbound@),
        decreases left,
    {
        let at: usize = left - 1;
        let ghost view = answers@[at as int]@;
        assert(views.take(left as int).last() == view);
        assert(views.take(left as int).drop_last() =~= views.take(at as int));
        let same_topic = match &answers[at].topic {
            Some(topic) => *topic == outbound.topic,
            None => true,
        };
        if answers[at].partition == outbound.partition && same_topic {
            return Some(at);
        }
        left = at;
    }
    None
}

/// Pulls one result per batch out of a broker's answers.
///
/// A partition the broker did not answer for is an ambiguous failure rather
/// than a rejection: the request reached the broker, so we cannot claim the
/// records were not appended.
pub fn read_response(answers: &Vec<Answer>, group: Vec<Outbound>) -> (results: Vec<RoundResult>)
    ensures
        round_views(results@) == Seq::new(
            group@.len(),
            |i: int| result_for(answer_views(answers@), group@[i]@),
        ),
{
    let mut results: Vec<RoundResult> = Vec::new();
    let ghost views = answer_views(answers@);
    for outbound in iter: group
        invariant
            iter.seq() == group@,
            views == answer_views(answers@),
            results@.len() == iter.index(),
            forall|k: int|
                0 <= k < iter.index() ==> (#[trigger] results@[k])@ == result_for(views, group@[k]@),
    {
        let result = match find_answer(answers, &outbound) {
            Some(at) => {
                match ErrorCode::from_code(answers[at].error_code) {
                    Some(code) => {
                        // A response carrying an error code means the records
                        // were not appended, which is what makes another
                        // attempt safe.
                        let message = match &answers[at].error_message {
                            Some(message) => Some(message.clone()),
                            None => None,
                        };
                        fail(outbound, Attempt::Rejected(Error::from_code(code, message)))
                    },
                    None => RoundResult {
                        topic: outbound.topic,
                        partition: outbound.partition,
                        outcome: Ok(
                            Ack {
                                base_offset: answers[at].base_offset,
                                // -1 is the protocol's "not reported".
                                log_append_time_ms: if answers[at].log_append_time_ms >= 0 {
                                    Some(answers[at].log_append_time_ms)
                                } else {
                                    None
                                },
                            },
                        ),
                        outbound: None,
                    },
                }
            },
            None => {
                let mut text = outbound.topic.clone();
                text.append("-");
                text.append(signed(outbound.partition as i64).as_str());
                text.append(": the broker did not answer a partition we sent");
                fail(outbound, Attempt::Ambiguous(Error::invalid_request(text)))
            },
        };
        results.push(result);
    }
    assert(round_views(results@) =~= Seq::new(
        group@.len(),
        |i: int| result_for(views, group@[i]@),
    ));
    results
}

/// The answers that are for a batch.
pub open spec fn answers_for(answers: Seq<AnswerView>, outbound: OutboundView) -> Seq<AnswerView>
    decreases answers.len(),
{
    if answers.len() == 0 {
        seq![]
    } else {
        let before = answers_for(answers.drop_last(), outbound);
        if answers.last().is_for(outbound) {
            before.push(answers.last())
        } else {
            before
        }
    }
}

/// The answer for a batch is the last of the answers that are for it.
proof fn lemma_answer_for(answers: Seq<AnswerView>, outbound: OutboundView)
    ensures
        answer_for(answers, outbound) == if answers_for(answers, outbound).len() == 0 {
            None
        } else {
            Some(answers_for(answers, outbound).last())
        },
    decreases answers.len(),
{
    if answers.len() > 0 {
        lemma_answer_for(answers.drop_last(), outbound);
    }
}

/// One partition's answer does not touch the partitions that travelled with it:
/// a batch's result depends only on the answers that are for it.
pub proof fn one_partitions_answer_is_its_own(
    answers: Seq<AnswerView>,
    others: Seq<AnswerView>,
    outbound: OutboundView,
)
    requires
        answers_for(answers, outbound) == answers_for(others, outbound),
    ensures
        result_for(answers, outbound) == result_for(others, outbound),
{
    lemma_answer_for(answers, outbound);
    lemma_answer_for(others, outbound);
}

/// The end of one batch: where it landed, or why it did not.
#[derive(Debug)]
pub struct Resolved {
    /// Topic.
    pub topic: String,
    /// Partition.
    pub partition: i32,
    /// Where it landed.
    pub outcome: Result<Ack, Error>,
}

/// A [`Resolved`] batch, as plain values.
pub struct ResolvedView {
    pub key: PartitionKey,
    pub outcome: Result<Ack, ErrorView>,
}

impl View for Resolved {
    type V = ResolvedView;

    open spec fn view(&self) -> ResolvedView {
        ResolvedView {
            key: (self.topic@, self.partition),
            outcome: match self.outcome {
                Ok(ack) => Ok(ack),
                Err(error) => Err(error@),
            },
        }
    }
}

/// Resolved batches, as plain values.
pub open spec fn resolved_views(resolved: Seq<Resolved>) -> Seq<ResolvedView> {
    resolved.map_values(|batch: Resolved| batch@)
}

/// What is left to do after a pass.
#[derive(Debug)]
pub struct Settled {
    /// The batches that are done.
    pub resolved: Vec<Resolved>,
    /// The batches to send again.
    pub retry: Vec<Outbound>,
    /// Whether to look the cluster up afresh first.
    pub refresh: bool,
}

/// Whether a result is sent again.
pub open spec fn goes_again(
    result: RoundResultView,
    attempt: u32,
    policy: RetryPolicy,
    idempotent: bool,
) -> bool {
    result.outcome matches Err(failure) && failure.retriable(attempt, policy, idempotent)
        && result.outbound is Some
}

/// The end a result comes to.
pub open spec fn end_of(result: RoundResultView) -> ResolvedView {
    ResolvedView {
        key: result.key,
        outcome: match result.outcome {
            Ok(ack) => Ok(ack),
            Err(failure) => Err(failure.error()),
        },
    }
}

/// The batches a pass is done with, in order.
pub open spec fn done(
    results: Seq<RoundResultView>,
    attempt: u32,
    policy: RetryPolicy,
    idempotent: bool,
) -> Seq<ResolvedView>
    decreases results.len(),
{
    if results.len() == 0 {
        seq![]
    } else {
        let before = done(results.drop_last(), attempt, policy, idempotent);
        if goes_again(results.last(), attempt, policy, idempotent) {
            before
        } else {
            before.push(end_of(results.last()))
        }
    }
}

/// The batches a pass sends again, in order.
pub open spec fn again(
    results: Seq<RoundResultView>,
    attempt: u32,
    policy: RetryPolicy,
    idempotent: bool,
) -> Seq<OutboundView>
    decreases results.len(),
{
    if results.len() == 0 {
        seq![]
    } else {
        let before = again(results.drop_last(), attempt, policy, idempotent);
        if goes_again(results.last(), attempt, policy, idempotent) {
            before.push(results.last().outbound->Some_0)
        } else {
            before
        }
    }
}

/// Decides what becomes of every result of pass number `attempt`, counting from
/// one: done, or sent again.
///
/// Every batch gets an end or another attempt, whatever happened to the ones
/// that travelled with it.
pub fn dispatch(
    results: Vec<RoundResult>,
    attempt: u32,
    policy: &RetryPolicy,
    idempotent: bool,
) -> (settled: Settled)
    ensures
        resolved_views(settled.resolved@) == done(
            round_views(results@),
            attempt,
            *policy,
            idempotent,
        ),
        outbound_views(settled.retry@) == again(
            round_views(results@),
            attempt,
            *policy,
            idempotent,
        ),
        settled.refresh == (exists|i: int|
            0 <= i < results@.len() && ((#[trigger] results@[i])@.outcome matches Err(failure)
                && failure.error().needs_metadata_refresh)),
        settled.resolved@.len() + settled.retry@.len() == results@.len(),
{
    let mut resolved: Vec<Resolved> = Vec::new();
    let mut retry: Vec<Outbound> = Vec::new();
    let mut refresh = false;
    let ghost views = round_views(results@);
    assert(resolved_views(resolved@) =~= done(views.take(0), attempt, *policy, idempotent));
    assert(outbound_views(retry@) =~= again(views.take(0), attempt, *policy, idempotent));
    for result in iter: results
        invariant
            iter.seq() == results@,
            views == round_views(results@),
            resolved_views(resolved@) == done(
                views.take(iter.index()),
                attempt,
                *policy,
                idempotent,
            ),
            outbound_views(retry@) == again(
                views.take(iter.index()),
                attempt,
                *policy,
                idempotent,
            ),
            refresh == (exists|i: int|
                0 <= i < iter.index() && ((#[trigger] results@[i])@.outcome matches Err(failure)
                    && failure.error().needs_metadata_refresh)),
            resolved@.len() + retry@.len() == iter.index(),
    {
        let ghost view = result@;
        let ghost ended = resolved_views(resolved@);
        let ghost waiting = outbound_views(retry@);
        proof {
            assert(views.take(iter.index() + 1).drop_last() =~= views.take(iter.index()));
            assert(views.take(iter.index() + 1).last() == view);
            assert(results@[iter.index()]@ == view);
        }
        match result.outcome {
            Ok(ack) => {
                resolved.push(
                    Resolved { topic: result.topic, partition: result.partition, outcome: Ok(ack) },
                );
                assert(resolved_views(resolved@) =~= ended.push(end_of(view)));
            },
            Err(failure) => {
                let stale = match &failure {
                    Attempt::Rejected(error) => error.needs_metadata_refresh,
                    Attempt::Ambiguous(error) => error.needs_metadata_refresh,
                };
                if stale {
                    refresh = true;
                }
                let may_retry = failure.retriable(attempt, policy, idempotent);
                match (may_retry, result.outbound) {
                    (true, Some(outbound)) => {
                        retry.push(outbound);
                        assert(outbound_views(retry@) =~= waiting.push(view.outbound->Some_0));
                    },
                    (_, _) => {
                        resolved.push(
                            Resolved {
                                topic: result.topic,
                                partition: result.partition,
                                outcome: Err(failure.into_error()),
                            },
                        );
                        assert(resolved_views(resolved@) =~= ended.push(end_of(view)));
                    },
                }
            },
        }
    }
    assert(views.take(views.len() as int) =~= views);
    Settled { resolved, retry, refresh }
}

/// How often a key occurs.
pub open spec fn key_count(keys: Seq<PartitionKey>, key: PartitionKey) -> nat
    decreases keys.len(),
{
    if keys.len() == 0 {
        0
    } else {
        key_count(keys.drop_last(), key) + if keys.last() == key {
            1nat
        } else {
            0nat
        }
    }
}

/// The keys of results.
pub open spec fn result_keys(results: Seq<RoundResultView>) -> Seq<PartitionKey> {
    results.map_values(|result: RoundResultView| result.key)
}

/// The keys of resolved batches.
pub open spec fn resolved_keys(resolved: Seq<ResolvedView>) -> Seq<PartitionKey> {
    resolved.map_values(|batch: ResolvedView| batch.key)
}

/// The keys of batches.
pub open spec fn batch_keys(batches: Seq<OutboundView>) -> Seq<PartitionKey> {
    batches.map_values(|batch: OutboundView| batch.key())
}

/// No batch is lost and none is invented: of each partition's results, every
/// one either ended or goes again.
pub proof fn every_batch_is_accounted_for(
    results: Seq<RoundResultView>,
    attempt: u32,
    policy: RetryPolicy,
    idempotent: bool,
    key: PartitionKey,
)
    requires
        forall|i: int|
            0 <= i < results.len() ==> ((#[trigger] results[i]).outbound matches Some(outbound)
                ==> outbound.key() == results[i].key),
    ensures
        key_count(resolved_keys(done(results, attempt, policy, idempotent)), key) + key_count(
            batch_keys(again(results, attempt, policy, idempotent)),
            key,
        ) == key_count(result_keys(results), key),
    decreases results.len(),
{
    if results.len() > 0 {
        let shorter = results.drop_last();
        let last = results.last();
        assert forall|i: int| 0 <= i < shorter.len() implies ((
        #[trigger] shorter[i]).outbound matches Some(outbound) ==> outbound.key()
            == shorter[i].key) by {
            assert(shorter[i] == results[i]);
        }
        every_batch_is_accounted_for(shorter, attempt, policy, idempotent, key);
        assert(result_keys(results).drop_last() =~= result_keys(shorter));
        assert(result_keys(results).last() == last.key);
        let ended = done(shorter, attempt, policy, idempotent);
        let waiting = again(shorter, attempt, policy, idempotent);
        if goes_again(last, attempt, policy, idempotent) {
            assert(results[results.len() - 1].outbound is Some);
            let keys = batch_keys(waiting.push(last.outbound->Some_0));
            assert(keys.drop_last() =~= batch_keys(waiting));
            assert(keys.last() == last.key);
        } else {
            let keys = resolved_keys(ended.push(end_of(last)));
            assert(keys.drop_last() =~= resolved_keys(ended));
            assert(keys.last() == last.key);
        }
    }
}

} // verus!
