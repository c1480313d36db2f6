//! What holds of every round trip.

use vstd::prelude::*;

use crate::error::{code_for, ErrorKindView, ErrorView};
use crate::keyed::{
    group_position, grouped, grouping_keeps_every_item, items_of, lemma_group_position, PartitionKey,
};
use crate::produce::config::{acks_number, Acks, RetryPolicy};
use crate::produce::dispatch::{
    again, by_leader, done, first_unnamed, known_id, named, places, result_for, topic_part,
    without_leader, Ack, AnswerView, AttemptView, OutboundView, ResolvedView, RoundResultView,
};
use crate::produce::idempotence::{next_sequence, step};
use crate::wire::TopicRefView;

verus! {

/// Another attempt is allowed while there are attempts left, of a failure that a
/// retry may mend; of one whose outcome nobody knows only under idempotence.
pub proof fn when_a_batch_may_be_sent_again(
    failure: AttemptView,
    attempt: u32,
    policy: RetryPolicy,
    idempotent: bool,
)
    ensures
        failure matches AttemptView::Rejected(error) ==> (failure.retriable(
            attempt,
            policy,
            idempotent,
        ) <==> error.retriable && attempt < policy.max_attempts),
        failure matches AttemptView::Ambiguous(error) ==> (failure.retriable(
            attempt,
            policy,
            idempotent,
        ) <==> error.retriable && attempt < policy.max_attempts && idempotent),
{
}

/// Whether an answer is for a batch: it is of the batch's partition, and of its topic
/// where it says of which.
pub open spec fn answers(answer: AnswerView, outbound: OutboundView) -> bool {
    &&& answer.partition == outbound.partition
    &&& answer.topic is None || answer.topic == Some(outbound.topic)
}

/// The broker's last answer for a batch decides: zero is success, and the batch
/// landed where the answer says, at the time it says unless that is negative; any
/// other code is a rejection of that code, and the batch is handed back.
pub proof fn the_brokers_answer_decides(
    all: Seq<AnswerView>,
    outbound: OutboundView,
    k: int,
)
    requires
        0 <= k < all.len(),
        answers(all[k], outbound),
        forall|j: int| k < j < all.len() ==> !answers(#[trigger] all[j], outbound),
    ensures
        ({
            let result = result_for(all, outbound);
            let answer = all[k];
            &&& result.key == (outbound.topic, outbound.partition)
            &&& answer.error_code == 0 ==> {
                &&& result.outbound is None
                &&& result.outcome matches Ok(ack) && {
                    &&& ack.base_offset == answer.base_offset
                    &&& answer.log_append_time_ms >= 0 ==> ack.log_append_time_ms == Some(
                        answer.log_append_time_ms,
                    )
                    &&& answer.log_append_time_ms < 0 ==> ack.log_append_time_ms is None
                }
            }
            &&& answer.error_code != 0 ==> {
                &&& result.outbound == Some(outbound)
                &&& result.outcome matches Err(AttemptView::Rejected(error))
                    && error.kind == (ErrorKindView::Broker {
                    code: code_for(answer.error_code)->Some_0,
                    context: answer.error_message,
                })
            }
        }),
    decreases all.len(),
{
    if k < all.len() - 1 {
        assert(!answers(all[all.len() - 1], outbound));
        let before = all.drop_last();
        assert forall|j: int| k < j < before.len() implies !answers(
            #[trigger] before[j],
            outbound,
        ) by {
            assert(before[j] == all[j]);
        }
        the_brokers_answer_decides(before, outbound, k);
    }
}

/// A batch that no answer is for may have been written or not: it is handed back, and
/// its failure is ambiguous.
pub proof fn silence_is_ambiguous(all: Seq<AnswerView>, outbound: OutboundView)
    requires
        forall|j: int| 0 <= j < all.len() ==> !answers(#[trigger] all[j], outbound),
    ensures
        ({
            let result = result_for(all, outbound);
            &&& result.key == (outbound.topic, outbound.partition)
            &&& result.outbound == Some(outbound)
            &&& result.outcome matches Err(AttemptView::Ambiguous(error))
                && error.kind is InvalidRequest && !error.retriable
        }),
    decreases all.len(),
{
    if all.len() > 0 {
        assert(!answers(all[all.len() - 1], outbound));
        let before = all.drop_last();
        assert forall|j: int| 0 <= j < before.len() implies !answers(
            #[trigger] before[j],
            outbound,
        ) by {
            assert(before[j] == all[j]);
        }
        silence_is_ambiguous(before, outbound);
    }
}

/// The batches that a leader is to have, in order.
pub open spec fn bound_for(
    batches: Seq<(OutboundView, Result<i32, ErrorView>)>,
    leader: i32,
) -> Seq<OutboundView>
    decreases batches.len(),
{
    if batches.len() == 0 {
        seq![]
    } else if batches.last().1 == Ok::<i32, ErrorView>(leader) {
        bound_for(batches.drop_last(), leader).push(batches.last().0)
    } else {
        bound_for(batches.drop_last(), leader)
    }
}

/// Every leader gets one request, with all the batches that are routed to it, in
/// order, and no others.
pub proof fn every_leader_gets_its_batches(batches: Seq<(OutboundView, Result<i32, ErrorView>)>)
    ensures
        forall|g: int|
            0 <= g < by_leader(batches).len() ==> {
                &&& (#[trigger] by_leader(batches)[g]).1 == bound_for(
                    batches,
                    by_leader(batches)[g].0,
                )
                &&& by_leader(batches)[g].1.len() > 0
            },
        forall|g: int, h: int|
            0 <= g < h < by_leader(batches).len() ==> (#[trigger] by_leader(batches)[g]).0 != (
            #[trigger] by_leader(batches)[h]).0,
        forall|leader: i32|
            #![trigger bound_for(batches, leader)]
            bound_for(batches, leader).len() > 0 ==> exists|g: int|
                0 <= g < by_leader(batches).len() && (#[trigger] by_leader(batches)[g]).0 == leader,
    decreases batches.len(),
{
    if batches.len() > 0 {
        let shorter = batches.drop_last();
        let before = by_leader(shorter);
        let out = by_leader(batches);
        let (batch, route) = batches.last();
        every_leader_gets_its_batches(shorter);
        match route {
            Err(_) => {
                assert(forall|leader: i32| #[trigger]
                    bound_for(batches, leader) == bound_for(shorter, leader));
            },
            Ok(to) => {
                lemma_group_position(before, to);
                assert forall|leader: i32| #[trigger]
                    bound_for(batches, leader) == if leader == to {
                        bound_for(shorter, leader).push(batch)
                    } else {
                        bound_for(shorter, leader)
                    } by {}
                let place = match group_position(before, to) {
                    Some(at) => at,
                    None => before.len() as int,
                };
                assert(out[place].0 == to);
                assert forall|g: int| 0 <= g < out.len() implies {
                    &&& (#[trigger] out[g]).1 == bound_for(batches, out[g].0)
                    &&& out[g].1.len() > 0
                } by {
                    if g == place {
                        if group_position(before, to) is None {
                            assert(bound_for(shorter, to).len() == 0) by {
                                if bound_for(shorter, to).len() > 0 {
                                    let h = choose|h: int|
                                        0 <= h < before.len() && (#[trigger] before[h]).0 == to;
                                    assert(before[h].0 == to);
                                }
                            }
                            assert(bound_for(shorter, to).push(batch) =~= seq![batch]);
                        } else {
                            assert(before[g].1 == bound_for(shorter, to));
                        }
                    } else {
                        assert(out[g] == before[g]);
                        if before[g].0 == to {
                            assert(group_position(before, to) is Some);
                            assert(before[place].0 == to);
                            assert(false);
                        }
                    }
                }
                assert forall|leader: i32|
                    #![trigger bound_for(batches, leader)]
                    bound_for(batches, leader).len() > 0 implies exists|g: int|
                    0 <= g < out.len() && (#[trigger] out[g]).0 == leader by {
                    if leader == to {
                        assert(out[place].0 == leader);
                    } else {
                        assert(bound_for(shorter, leader).len() > 0);
                        let h = choose|h: int|
                            0 <= h < before.len() && (#[trigger] before[h]).0 == leader;
                        assert(out[h].0 == leader);
                    }
                }
            },
        }
    }
}

/// A batch that has no leader was not sent: it is rejected, for the reason it has
/// none, and handed back; and no other batch is.
pub proof fn a_batch_without_a_leader_is_rejected(
    batches: Seq<(OutboundView, Result<i32, ErrorView>)>,
)
    ensures
        forall|i: int|
            0 <= i < batches.len() ==> ((#[trigger] batches[i]).1 matches Err(error)
                ==> without_leader(batches).contains(
                RoundResultView {
                    key: (batches[i].0.topic, batches[i].0.partition),
                    outcome: Err(AttemptView::Rejected(error)),
                    outbound: Some(batches[i].0),
                },
            )),
        forall|k: int|
            0 <= k < without_leader(batches).len() ==> exists|i: int|
                0 <= i < batches.len() && (#[trigger] batches[i]).1 is Err && (
                #[trigger] without_leader(batches)[k]).outbound == Some(batches[i].0),
    decreases batches.len(),
{
    if batches.len() > 0 {
        let shorter = batches.drop_last();
        let before = without_leader(shorter);
        let out = without_leader(batches);
        a_batch_without_a_leader_is_rejected(shorter);
        assert forall|i: int| 0 <= i < batches.len() implies ((
        #[trigger] batches[i]).1 matches Err(error) ==> out.contains(
            RoundResultView {
                key: (batches[i].0.topic, batches[i].0.partition),
                outcome: Err(AttemptView::Rejected(error)),
                outbound: Some(batches[i].0),
            },
        )) by {
            if let Err(error) = batches[i].1 {
                let one = RoundResultView {
                    key: (batches[i].0.topic, batches[i].0.partition),
                    outcome: Err(AttemptView::Rejected(error)),
                    outbound: Some(batches[i].0),
                };
                if i < shorter.len() {
                    assert(shorter[i] == batches[i]);
                    let k = choose|k: int| 0 <= k < before.len() && before[k] == one;
                    assert(out[k] == one);
                } else {
                    assert(out[before.len() as int] == one);
                }
            }
        }
        assert forall|k: int| 0 <= k < out.len() implies exists|i: int|
            0 <= i < batches.len() && (#[trigger] batches[i]).1 is Err && (
            #[trigger] out[k]).outbound == Some(batches[i].0) by {
            if k < before.len() {
                assert(out[k] == before[k]);
                let i = choose|i: int|
                    0 <= i < shorter.len() && (#[trigger] shorter[i]).1 is Err && (
                    #[trigger] before[k]).outbound == Some(shorter[i].0);
                assert(batches[i].1 is Err);
            } else {
                assert(batches[batches.len() - 1].1 is Err);
            }
        }
    }
}

/// Whether a pass leaves a batch to be sent again: it failed, the failure may be
/// repeated, and the batch is at hand.
pub open spec fn to_repeat(
    result: RoundResultView,
    attempt: u32,
    policy: RetryPolicy,
    idempotent: bool,
) -> bool {
    &&& attempt < policy.max_attempts
    &&& result.outbound is Some
    &&& match result.outcome {
        Ok(_) => false,
        Err(AttemptView::Rejected(error)) => error.retriable,
        Err(AttemptView::Ambiguous(error)) => error.retriable && idempotent,
    }
}

/// What a batch that is not sent again came to.
pub open spec fn came_to(outcome: Result<Ack, AttemptView>) -> Result<Ack, ErrorView> {
    match outcome {
        Ok(ack) => Ok(ack),
        Err(AttemptView::Rejected(error)) => Err(error),
        Err(AttemptView::Ambiguous(error)) => Err(error),
    }
}

/// After a pass every batch is either to be sent again, as it is, or done, with what
/// it came to; in order, each once.
pub proof fn a_pass_settles_every_batch(
    results: Seq<RoundResultView>,
    result: RoundResultView,
    attempt: u32,
    policy: RetryPolicy,
    idempotent: bool,
)
    ensures
        done(seq![], attempt, policy, idempotent).len() == 0,
        again(seq![], attempt, policy, idempotent).len() == 0,
        to_repeat(result, attempt, policy, idempotent) ==> {
            &&& again(results.push(result), attempt, policy, idempotent) == again(
                results,
                attempt,
                policy,
                idempotent,
            ).push(result.outbound->Some_0)
            &&& done(results.push(result), attempt, policy, idempotent) == done(
                results,
                attempt,
                policy,
                idempotent,
            )
        },
        !to_repeat(result, attempt, policy, idempotent) ==> {
            &&& again(results.push(result), attempt, policy, idempotent) == again(
                results,
                attempt,
                policy,
                idempotent,
            )
            &&& done(results.push(result), attempt, policy, idempotent) == done(
                results,
                attempt,
                policy,
                idempotent,
            ).push(ResolvedView { key: result.key, outcome: came_to(result.outcome) })
        },
{
    assert(results.push(result).drop_last() =~= results);
}

/// A topic is known by the first id that is listed for it, and by none if none is.
pub proof fn the_first_listed_id_counts(ids: Seq<(Seq<char>, u128)>, topic: Seq<char>, k: int)
    requires
        0 <= k <= ids.len(),
        forall|j: int| 0 <= j < k ==> (#[trigger] ids[j]).0 != topic,
    ensures
        k < ids.len() && ids[k].0 == topic ==> known_id(ids, topic) == Some(ids[k].1),
        k == ids.len() ==> known_id(ids, topic) is None,
    decreases ids.len(),
{
    if ids.len() > 0 && k > 0 {
        assert(ids[0].0 != topic);
        let rest = ids.skip(1);
        assert forall|j: int| 0 <= j < k - 1 implies (#[trigger] rest[j]).0 != topic by {
            assert(rest[j] == ids[j + 1]);
        }
        the_first_listed_id_counts(rest, topic, k - 1);
        if k < ids.len() {
            assert(rest[k - 1] == ids[k]);
        }
    }
}

/// Up to version 12 a request names its topics; from 13 on it gives their ids. One
/// whose topic has no id is refused, and one whose topic nobody knows is answered as
/// the broker would: code 3.
pub proof fn how_a_request_names_a_topic(
    topic: Seq<char>,
    version: i16,
    ids: Seq<(Seq<char>, u128)>,
)
    ensures
        version < 13 ==> named(topic, version, ids) == Ok::<TopicRefView, ErrorView>(
            TopicRefView::Name(topic),
        ),
        version >= 13 ==> match known_id(ids, topic) {
            Some(id) => if id != 0 {
                named(topic, version, ids) == Ok::<TopicRefView, ErrorView>(TopicRefView::Id(id))
            } else {
                named(topic, version, ids) matches Err(error) && error.kind is InvalidRequest
                    && !error.retriable
            },
            None => named(topic, version, ids) matches Err(error)
                && error.kind == (ErrorKindView::Broker {
                code: code_for(3)->Some_0,
                context: Some(topic),
            }) && error.needs_metadata_refresh,
        },
{
}

/// A request is refused just when one of its topics cannot be named, for the reason
/// that the first of those cannot.
pub proof fn the_first_topic_without_a_name_refuses(
    groups: Seq<(Seq<char>, Seq<usize>)>,
    version: i16,
    ids: Seq<(Seq<char>, u128)>,
    k: int,
)
    requires
        0 <= k <= groups.len(),
        forall|j: int| 0 <= j < k ==> named((#[trigger] groups[j]).0, version, ids) is Ok,
    ensures
        k == groups.len() ==> first_unnamed(groups, version, ids) is None,
        k < groups.len() ==> (named(groups[k].0, version, ids) matches Err(error) ==> first_unnamed(
            groups,
            version,
            ids,
        ) == Some(error)),
    decreases groups.len(),
{
    if groups.len() > 0 && k > 0 {
        assert(named(groups[0].0, version, ids) is Ok);
        let rest = groups.skip(1);
        assert forall|j: int| 0 <= j < k - 1 implies named(
            (#[trigger] rest[j]).0,
            version,
            ids,
        ) is Ok by {
            assert(rest[j] == groups[j + 1]);
        }
        the_first_topic_without_a_name_refuses(rest, version, ids, k - 1);
        if k < groups.len() {
            assert(rest[k - 1] == groups[k]);
        }
    }
}

/// The places of a topic's batches, in order.
proof fn lemma_place_is_listed(group: Seq<OutboundView>, n: int, i: int)
    requires
        0 <= i < n <= group.len() <= usize::MAX,
    ensures
        items_of(places(group).take(n), group[i].topic).contains(i as usize),
    decreases n,
{
    let items = places(group).take(n);
    let shorter = places(group).take(n - 1);
    assert(items.drop_last() =~= shorter);
    let listed = items_of(items, group[i].topic);
    if i == n - 1 {
        assert(items.last() == (group[i].topic, i as usize));
        assert(listed.last() == i as usize);
    } else {
        lemma_place_is_listed(group, n - 1, i);
        let before = items_of(shorter, group[i].topic);
        let k = choose|k: int| 0 <= k < before.len() && before[k] == i as usize;
        assert(listed[k] == i as usize);
    }
}

/// Every batch of a group travels in the request: its partition and its bytes stand in
/// the part of its topic.
pub proof fn a_request_carries_every_batch(
    group: Seq<OutboundView>,
    version: i16,
    ids: Seq<(Seq<char>, u128)>,
    i: int,
)
    requires
        0 <= i < group.len() <= usize::MAX,
    ensures
        exists|g: int|
            0 <= g < grouped(places(group)).len() && (#[trigger] grouped(places(group))[g]).0
                == group[i].topic && topic_part(
                group,
                grouped(places(group))[g],
                version,
                ids,
            ).1.contains((group[i].partition, group[i].encoded)) && (named(
                group[i].topic,
                version,
                ids,
            ) matches Ok(name) ==> topic_part(
                group,
                grouped(places(group))[g],
                version,
                ids,
            ).0 == name),
{
    let items = places(group);
    let topic = group[i].topic;
    assert(items.take(items.len() as int) =~= items);
    lemma_place_is_listed(group, group.len() as int, i);
    grouping_keeps_every_item(items, topic);
    lemma_group_position(grouped(items), topic);
    let listed = items_of(items, topic);
    let k = choose|k: int| 0 <= k < listed.len() && listed[k] == i as usize;
    assert(group_position(grouped(items), topic) is Some);
    let g = group_position(grouped(items), topic)->Some_0;
    assert(grouped(items)[g] == (topic, listed));
    let part = topic_part(group, grouped(items)[g], version, ids);
    assert(part.1[k] == (group[i].partition, group[i].encoded));
}

/// The protocol's numbers for acknowledgements: one for the leader's, and minus one for
/// those of all replicas in sync.
pub proof fn acks_are_the_protocols(acks: Acks)
    ensures
        acks is Leader ==> acks_number(acks) == 1,
        acks is All ==> acks_number(acks) == -1,
{
}

/// A partition's numbers start from zero and move on by as many as a batch has
/// records.
pub proof fn numbers_count_records(
    next: Map<PartitionKey, i32>,
    key: PartitionKey,
    count: usize,
)
    requires
        count <= i32::MAX,
    ensures
        !next.contains_key(key) ==> next_sequence(next, key) == 0,
        next.contains_key(key) ==> next_sequence(next, key) == next[key],
        step(count) == count,
{
}

} // verus!
